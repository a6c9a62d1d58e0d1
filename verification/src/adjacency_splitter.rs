//! Splitting a font's code points into subsets of code points that tend to occur on the same
//! pages, greedily, from the rarest code point to the most common.
use vstd::prelude::*;
use vstd::multiset::Multiset;
use crate::character_set::CharacterSet;
use crate::model::adjacency_array::AdjacencyArray;
use crate::sort::{strictly_increasing, sort_distinct, lemma_push_to_set};
use crate::text::{decimal, push_decimal, push_str, string_from_chars};

verus! {

/// A subset is closed once it holds this many code points.
pub const TUNING_SUBSET_SIZE: usize = 100;

/// `x` is taken before `y`: it is rarer, or as common with a smaller code point.
pub open spec fn comes_before(a: AdjacencyArray, x: u32, y: u32) -> bool {
    a.frequency(x) < a.frequency(y) || (a.frequency(x) == a.frequency(y) && x < y)
}

/// The code points of `s` are in the order they are taken in.
pub open spec fn frequency_ordered(a: AdjacencyArray, s: Seq<u32>) -> bool {
    forall|i: int, j: int| 0 <= i < j < s.len() ==> comes_before(a, #[trigger] s[i], #[trigger] s[j])
}

/// The position of the first smallest score.
pub open spec fn first_min(scores: Seq<u64>) -> int
    decreases scores.len(),
{
    if scores.len() <= 1 {
        0
    } else {
        let m = first_min(scores.drop_last());
        if scores.last() < scores[m] { scores.len() - 1 } else { m }
    }
}

/// The waste score of `ch` against each open subset.
pub open spec fn scores(a: AdjacencyArray, active: Seq<Seq<u32>>, ch: u32) -> Seq<u64> {
    Seq::new(active.len(), |i: int| a.wasted_space(active[i], ch, active[i].len()))
}

/// The waste that opening a new subset for a code point of frequency `freq` is worth: twice
/// the frequency, capped at `u64::MAX`.
pub open spec fn overhead(freq: u64) -> int {
    if 2 * freq > u64::MAX { u64::MAX as int } else { 2 * freq }
}

/// The open subsets and the closed ones.
pub type GreedyState = (Seq<Seq<u32>>, Seq<Seq<u32>>);

/// Takes one code point: with no open subset, or when the best open subset (the first with the
/// least waste score) would waste more than the overhead of a new subset, it opens a new
/// subset; else it joins the best one, which is closed (moved out, the last open subset taking
/// its position) once it is full.
pub open spec fn greedy_step(a: AdjacencyArray, st: GreedyState, ch: u32) -> GreedyState {
    let active = st.0;
    let done = st.1;
    if active.len() == 0 {
        (active.push(seq![ch]), done)
    } else {
        let sc = scores(a, active, ch);
        let best = first_min(sc);
        if sc[best] > overhead(a.frequency(ch)) {
            (active.push(seq![ch]), done)
        } else {
            let grown = active[best].push(ch);
            let updated = active.update(best, grown);
            if grown.len() >= TUNING_SUBSET_SIZE {
                (updated.update(best, updated.last()).drop_last(), done.push(grown))
            } else {
                (updated, done)
            }
        }
    }
}

/// The state after the first `k` code points of `order` were taken.
pub open spec fn greedy(a: AdjacencyArray, order: Seq<u32>, k: nat) -> GreedyState
    decreases k,
{
    if k == 0 || k > order.len() {
        (Seq::empty(), Seq::empty())
    } else {
        greedy_step(a, greedy(a, order, (k - 1) as nat), order[k - 1])
    }
}

/// The subsets that taking all of `order` gives: the closed ones, then the open ones.
pub open spec fn groups_of(a: AdjacencyArray, order: Seq<u32>) -> Seq<Seq<u32>> {
    let st = greedy(a, order, order.len());
    st.1 + st.0
}

/// The views of a list of vectors.
pub open spec fn views(v: Seq<Vec<u32>>) -> Seq<Seq<u32>> {
    v.map_values(|g: Vec<u32>| g@)
}

/// Merges two lists in taking order into the list in taking order of all their code points.
fn merge_ordered(a: &AdjacencyArray, l: &Vec<u32>, r: &Vec<u32>) -> (m: Vec<u32>)
    requires
        frequency_ordered(*a, l@),
        frequency_ordered(*a, r@),
    ensures
        frequency_ordered(*a, m@),
        m@.to_set() == l@.to_set() + r@.to_set(),
{
    let mut m: Vec<u32> = Vec::new();
    let mut i: usize = 0;
    let mut j: usize = 0;
    while i < l.len() || j < r.len()
        invariant
            i <= l@.len(),
            j <= r@.len(),
            frequency_ordered(*a, l@),
            frequency_ordered(*a, r@),
            frequency_ordered(*a, m@),
            m@.to_set() == l@.subrange(0, i as int).to_set() + r@.subrange(0, j as int).to_set(),
            forall|k: int| 0 <= k < m@.len() ==> (i < l@.len() ==> comes_before(*a, #[trigger] m@[k], l@[i as int])),
            forall|k: int| 0 <= k < m@.len() ==> (j < r@.len() ==> comes_before(*a, #[trigger] m@[k], r@[j as int])),
        decreases l@.len() + r@.len() - i - j,
    {
        let ghost old_m = m@;
        let take_l = if j >= r.len() {
            true
        } else if i >= l.len() {
            false
        } else {
            let fl = a.get_character_frequency(l[i]);
            let fr = a.get_character_frequency(r[j]);
            fl < fr || (fl == fr && l[i] <= r[j])
        };
        if take_l {
            let x = l[i];
            m.push(x);
            proof { lemma_push_to_set(l@.subrange(0, i as int), x); }
            if j < r.len() && r[j] == x {
                proof { lemma_push_to_set(r@.subrange(0, j as int), x); }
                j = j + 1;
                assert(r@.subrange(0, j as int) == r@.subrange(0, j - 1).push(x));
            }
            i = i + 1;
            assert(l@.subrange(0, i as int) == l@.subrange(0, i - 1).push(x));
        } else {
            let x = r[j];
            m.push(x);
            proof { lemma_push_to_set(r@.subrange(0, j as int), x); }
            j = j + 1;
            assert(r@.subrange(0, j as int) == r@.subrange(0, j - 1).push(x));
        }
        assert(m@ == old_m.push(m@.last()));
        proof { lemma_push_to_set(old_m, m@.last()); }
    }
    assert(l@.subrange(0, l@.len() as int) == l@);
    assert(r@.subrange(0, r@.len() as int) == r@);
    m
}

/// Sorts `v[lo..hi]` into taking order, dropping repeats.
fn sort_ordered(a: &AdjacencyArray, v: &Vec<u32>, lo: usize, hi: usize) -> (r: Vec<u32>)
    requires
        lo <= hi <= v@.len(),
    ensures
        frequency_ordered(*a, r@),
        r@.to_set() == v@.subrange(lo as int, hi as int).to_set(),
    decreases hi - lo,
{
    if hi - lo == 0 {
        let r: Vec<u32> = Vec::new();
        assert(r@.to_set() =~= v@.subrange(lo as int, hi as int).to_set());
        r
    } else if hi - lo == 1 {
        let mut r: Vec<u32> = Vec::new();
        r.push(v[lo]);
        assert(r@ == v@.subrange(lo as int, hi as int));
        r
    } else {
        let mid = lo + (hi - lo) / 2;
        let left = sort_ordered(a, v, lo, mid);
        let right = sort_ordered(a, v, mid, hi);
        let r = merge_ordered(a, &left, &right);
        proof {
            let s = v@.subrange(lo as int, hi as int);
            assert(s == v@.subrange(lo as int, mid as int) + v@.subrange(mid as int, hi as int));
            assert forall|x: u32| s.to_set().contains(x) <==> r@.to_set().contains(x) by {
                if s.to_set().contains(x) {
                    let k = choose|k: int| 0 <= k < s.len() && s[k] == x;
                    if k < mid - lo {
                        assert(v@.subrange(lo as int, mid as int)[k] == x);
                    } else {
                        assert(v@.subrange(mid as int, hi as int)[k - (mid - lo)] == x);
                    }
                }
                if r@.to_set().contains(x) {
                    if v@.subrange(lo as int, mid as int).to_set().contains(x) {
                        let k = choose|k: int| 0 <= k < mid - lo && v@.subrange(lo as int, mid as int)[k] == x;
                        assert(s[k] == x);
                    } else {
                        let k = choose|k: int| 0 <= k < hi - mid && v@.subrange(mid as int, hi as int)[k] == x;
                        assert(s[k + (mid - lo)] == x);
                    }
                }
            }
            assert(s.to_set() =~= r@.to_set());
        }
        r
    }
}

/// The code points of `chars` in taking order: by frequency, then by code point.
pub fn frequency_order(a: &AdjacencyArray, chars: &CharacterSet) -> (order: Vec<u32>)
    ensures
        order@.to_set() == chars@,
        order@.no_duplicates(),
        frequency_ordered(*a, order@),
{
    let items = chars.to_vec();
    let order = sort_ordered(a, &items, 0, items.len());
    proof {
        assert(items@.subrange(0, items@.len() as int) == items@);
        assert forall|i: int, j: int| 0 <= i < order@.len() && 0 <= j < order@.len() && i != j implies
            order@[i] != order@[j] by {
            if i < j {
                assert(comes_before(*a, order@[i], order@[j]));
            } else {
                assert(comes_before(*a, order@[j], order@[i]));
            }
        }
    }
    order
}

/// Subsets of code points that tend to occur together, from taking the code points of `order`
/// one after another (see `greedy_step`): the closed subsets, then the open ones.
pub fn adjacency_groups(a: &AdjacencyArray, order: &Vec<u32>) -> (groups: Vec<Vec<u32>>)
    ensures
        views(groups@) == groups_of(*a, order@),
{
    let mut active: Vec<Vec<u32>> = Vec::new();
    let mut completed: Vec<Vec<u32>> = Vec::new();
    let mut k: usize = 0;
    proof {
        assert(views(active@) =~= Seq::<Seq<u32>>::empty());
        assert(views(completed@) =~= Seq::<Seq<u32>>::empty());
    }
    while k < order.len()
        invariant
            k <= order@.len(),
            (views(active@), views(completed@)) == greedy(*a, order@, k as nat),
        decreases order@.len() - k,
    {
        let ch = order[k];
        let ghost st = greedy(*a, order@, k as nat);
        let ghost av = views(active@);
        let freq = a.get_character_frequency(ch);
        if active.len() == 0 {
            let mut fresh: Vec<u32> = Vec::new();
            fresh.push(ch);
            active.push(fresh);
            proof {
                assert(views(active@) =~= av.push(seq![ch]));
            }
        } else {
            let ghost sc = scores(*a, av, ch);
            let mut best: usize = 0;
            let mut best_score: u64 = a.estimate_wasted_space_score(active[0].as_slice(), ch);
            proof {
                assert(sc.take(1).len() == 1);
                assert(first_min(sc.take(1)) == 0);
                assert(av[0] == active@[0]@);
            }
            let mut q: usize = 1;
            while q < active.len()
                invariant
                    1 <= q <= active@.len(),
                    av == views(active@),
                    sc == scores(*a, av, ch),
                    best == first_min(sc.take(q as int)),
                    best < q,
                    best_score == sc[best as int],
                decreases active@.len() - q,
            {
                let score = a.estimate_wasted_space_score(active[q].as_slice(), ch);
                proof {
                    assert(av[q as int] == active@[q as int]@);
                    assert(sc.take(q + 1).drop_last() =~= sc.take(q as int));
                    assert(sc.take(q + 1).last() == sc[q as int]);
                    assert(sc.take(q as int)[best as int] == sc[best as int]);
                }
                if score < best_score {
                    best = q;
                    best_score = score;
                }
                q = q + 1;
            }
            proof {
                assert(sc.take(active@.len() as int) =~= sc);
            }
            let over: u64 = if freq > u64::MAX / 2 { u64::MAX } else { 2 * freq };
            if best_score > over {
                let mut fresh: Vec<u32> = Vec::new();
                fresh.push(ch);
                active.push(fresh);
                proof {
                    assert(views(active@) =~= av.push(seq![ch]));
                }
            } else {
                let mut grown = active[best].clone();
                proof {
                    assert(grown@ =~= av[best as int]);
                }
                grown.push(ch);
                let full = grown.len() >= TUNING_SUBSET_SIZE;
                let ghost gv = grown@;
                active.set(best, grown);
                let ghost updated = views(active@);
                proof {
                    assert(updated =~= av.update(best as int, gv));
                }
                if full {
                    let removed = active.swap_remove(best);
                    completed.push(removed);
                    proof {
                        assert(views(active@) =~= updated.update(best as int, updated.last()).drop_last());
                        assert(views(completed@) =~= st.1.push(gv));
                    }
                }
            }
        }
        k = k + 1;
    }
    let mut groups = completed;
    let ghost done = views(groups@);
    let ghost open = views(active@);
    groups.append(&mut active);
    proof {
        assert(views(groups@) =~= done + open);
    }
    groups
}

/// All the code points of a list of subsets, with repeats.
pub open spec fn total(gs: Seq<Seq<u32>>) -> Multiset<u32>
    decreases gs.len(),
{
    if gs.len() == 0 {
        Multiset::empty()
    } else {
        total(gs.drop_last()).add(gs.last().to_multiset())
    }
}

proof fn lemma_total_push(gs: Seq<Seq<u32>>, g: Seq<u32>)
    ensures
        total(gs.push(g)) == total(gs).add(g.to_multiset()),
{
    broadcast use vstd::seq_lib::group_to_multiset_ensures, vstd::multiset::group_multiset_axioms;
    assert(gs.push(g).drop_last() =~= gs);
}

proof fn lemma_total_update(gs: Seq<Seq<u32>>, i: int, g: Seq<u32>)
    requires
        0 <= i < gs.len(),
    ensures
        total(gs.update(i, g)).add(gs[i].to_multiset()) == total(gs).add(g.to_multiset()),
    decreases gs.len(),
{
    broadcast use vstd::seq_lib::group_to_multiset_ensures, vstd::multiset::group_multiset_axioms;
    let u = gs.update(i, g);
    let d = gs.drop_last();
    assert(total(u) == total(u.drop_last()).add(u.last().to_multiset()));
    assert(total(gs) == total(d).add(gs.last().to_multiset()));
    if i == gs.len() - 1 {
        assert(u.drop_last() =~= d);
        assert(u.last() == g);
        assert forall|v: u32| #[trigger] total(u).add(gs[i].to_multiset()).count(v) == total(gs).add(g.to_multiset()).count(v) by {}
        assert(total(u).add(gs[i].to_multiset()) =~= total(gs).add(g.to_multiset()));
    } else {
        lemma_total_update(d, i, g);
        assert(u.drop_last() =~= d.update(i, g));
        assert(u.last() == gs.last());
        assert(d[i] == gs[i]);
        assert forall|v: u32| #[trigger] total(u).add(gs[i].to_multiset()).count(v) == total(gs).add(g.to_multiset()).count(v) by {
            assert(total(d.update(i, g)).add(d[i].to_multiset()).count(v) == total(d).add(g.to_multiset()).count(v));
        }
        assert(total(u).add(gs[i].to_multiset()) =~= total(gs).add(g.to_multiset()));
    }
}

proof fn lemma_total_concat(a: Seq<Seq<u32>>, b: Seq<Seq<u32>>)
    ensures
        total(a + b) == total(a).add(total(b)),
    decreases b.len(),
{
    broadcast use vstd::seq_lib::group_to_multiset_ensures, vstd::multiset::group_multiset_axioms;
    if b.len() == 0 {
        assert(a + b =~= a);
        assert(total(a).add(total(b)) =~= total(a));
    } else {
        lemma_total_concat(a, b.drop_last());
        assert((a + b).drop_last() =~= a + b.drop_last());
        assert(total(a + b) =~= total(a).add(total(b)));
    }
}

/// Removing the subset at `i` and moving the last one into its place drops that subset's code
/// points.
proof fn lemma_total_swap_remove(gs: Seq<Seq<u32>>, i: int)
    requires
        0 <= i < gs.len(),
    ensures
        total(gs.update(i, gs.last()).drop_last()).add(gs[i].to_multiset()) == total(gs),
{
    broadcast use vstd::seq_lib::group_to_multiset_ensures, vstd::multiset::group_multiset_axioms;
    let n = gs.len() - 1;
    let u = gs.update(i, gs.last());
    if i == n {
        assert(u =~= gs);
        assert(total(gs) == total(gs.drop_last()).add(gs.last().to_multiset()));
    } else {
        lemma_total_update(gs, i, gs.last());
        assert(u.last() == gs.last());
        assert(total(u) == total(u.drop_last()).add(gs.last().to_multiset()));
        assert forall|v: u32| #[trigger] total(u.drop_last()).add(gs[i].to_multiset()).count(v) == total(gs).count(v) by {
            assert(total(u).add(gs[i].to_multiset()).count(v) == total(gs).add(gs.last().to_multiset()).count(v));
        }
        assert(total(u.drop_last()).add(gs[i].to_multiset()) =~= total(gs));
    }
}

/// One taking step adds the code point to exactly one subset.
proof fn lemma_step_total(a: AdjacencyArray, st: GreedyState, ch: u32)
    ensures
        total(greedy_step(a, st, ch).1 + greedy_step(a, st, ch).0) == total(st.1 + st.0).insert(ch),
{
    broadcast use vstd::seq_lib::group_to_multiset_ensures, vstd::multiset::group_multiset_axioms;
    let active = st.0;
    let done = st.1;
    let next = greedy_step(a, st, ch);
    lemma_total_concat(done, active);
    lemma_total_concat(next.1, next.0);
    let one = Multiset::<u32>::empty().insert(ch);
    assert(seq![ch].to_multiset() =~= one) by {
        assert(seq![ch] =~= Seq::<u32>::empty().push(ch));
    }
    if active.len() == 0 {
        lemma_total_push(active, seq![ch]);
        assert(total(next.1).add(total(next.0)) =~= total(done).add(total(active)).insert(ch));
    } else {
        let sc = scores(a, active, ch);
        lemma_first_min_bound(sc);
        let best = first_min(sc);
        if sc[best] > overhead(a.frequency(ch)) {
            lemma_total_push(active, seq![ch]);
            assert(total(next.1).add(total(next.0)) =~= total(done).add(total(active)).insert(ch));
        } else {
            let grown = active[best].push(ch);
            let updated = active.update(best, grown);
            lemma_total_update(active, best, grown);
            assert(grown.to_multiset() =~= active[best].to_multiset().insert(ch));
            assert(total(updated) =~= total(active).insert(ch)) by {
                assert forall|v: u32| #[trigger] total(updated).count(v) == total(active).insert(ch).count(v) by {
                    assert(total(updated).add(active[best].to_multiset()).count(v)
                        == total(active).add(grown.to_multiset()).count(v));
                }
            }
            if grown.len() >= TUNING_SUBSET_SIZE {
                lemma_total_swap_remove(updated, best);
                lemma_total_push(done, grown);
                assert(updated[best] == grown);
                let swapped = updated.update(best, updated.last()).drop_last();
                assert(next.0 == swapped);
                assert(next.1 == done.push(grown));
                assert forall|v: u32| #[trigger] total(next.1).add(total(next.0)).count(v)
                    == total(done).add(total(active)).insert(ch).count(v) by {
                    assert(total(swapped).add(grown.to_multiset()).count(v) == total(updated).count(v));
                }
                assert(total(next.1).add(total(next.0)) =~= total(done).add(total(active)).insert(ch));
            } else {
                assert(total(next.1).add(total(next.0)) =~= total(done).add(total(active)).insert(ch));
            }
        }
    }
}

proof fn lemma_first_min_bound(scores: Seq<u64>)
    requires
        scores.len() > 0,
    ensures
        0 <= first_min(scores) < scores.len(),
    decreases scores.len(),
{
    if scores.len() > 1 {
        lemma_first_min_bound(scores.drop_last());
    }
}

/// The split loses and repeats no code point: the subsets together hold each code point of the
/// order once.
pub proof fn law_groups_partition(a: AdjacencyArray, order: Seq<u32>, k: nat)
    requires
        k <= order.len(),
    ensures
        total(greedy(a, order, k).1 + greedy(a, order, k).0) == order.take(k as int).to_multiset(),
    decreases k,
{
    broadcast use vstd::seq_lib::group_to_multiset_ensures, vstd::multiset::group_multiset_axioms;
    if k == 0 {
        assert(greedy(a, order, 0).1 + greedy(a, order, 0).0 =~= Seq::<Seq<u32>>::empty());
        assert(order.take(0) =~= Seq::<u32>::empty());
        assert(total(Seq::<Seq<u32>>::empty()) =~= Multiset::<u32>::empty());
    } else {
        law_groups_partition(a, order, (k - 1) as nat);
        lemma_step_total(a, greedy(a, order, (k - 1) as nat), order[k - 1]);
        assert(order.take(k as int) =~= order.take(k - 1).push(order[k - 1]));
    }
}

/// The order in which code points are taken is fixed by the code points: two orderings of the
/// same code points in taking order are equal.
pub proof fn law_frequency_order_unique(a: AdjacencyArray, s: Seq<u32>, t: Seq<u32>)
    requires
        frequency_ordered(a, s),
        frequency_ordered(a, t),
        s.to_set() == t.to_set(),
    ensures
        s == t,
    decreases s.len() + t.len(),
{
    if s.len() == 0 || t.len() == 0 {
        if s.len() > 0 {
            assert(s.to_set().contains(s[0]));
        }
        if t.len() > 0 {
            assert(t.to_set().contains(t[0]));
        }
        assert(s =~= t);
    } else {
        let x = s.last();
        let y = t.last();
        assert(s.to_set().contains(x));
        assert(t.to_set().contains(y));
        let i = choose|i: int| 0 <= i < t.len() && t[i] == x;
        let j = choose|j: int| 0 <= j < s.len() && s[j] == y;
        if x != y {
            if i != t.len() - 1 {
                assert(comes_before(a, t[i], t[t.len() - 1]));
            }
            if j != s.len() - 1 {
                assert(comes_before(a, s[j], s[s.len() - 1]));
            }
        }
        assert(x == y);
        let s2 = s.drop_last();
        let t2 = t.drop_last();
        assert forall|v: u32| s2.to_set().contains(v) <==> t2.to_set().contains(v) by {
            if s2.to_set().contains(v) {
                let k = choose|k: int| 0 <= k < s2.len() && s2[k] == v;
                assert(s[k] == v);
                assert(comes_before(a, s[k], s[s.len() - 1]));
                assert(t.to_set().contains(v));
                let m = choose|m: int| 0 <= m < t.len() && t[m] == v;
                assert(m != t.len() - 1);
                assert(t2[m] == v);
            }
            if t2.to_set().contains(v) {
                let k = choose|k: int| 0 <= k < t2.len() && t2[k] == v;
                assert(t[k] == v);
                assert(comes_before(a, t[k], t[t.len() - 1]));
                assert(s.to_set().contains(v));
                let m = choose|m: int| 0 <= m < s.len() && s[m] == v;
                assert(m != s.len() - 1);
                assert(s2[m] == v);
            }
        }
        assert(s2.to_set() =~= t2.to_set());
        assert(frequency_ordered(a, s2)) by {
            assert forall|p: int, q: int| 0 <= p < q < s2.len() implies comes_before(a, #[trigger] s2[p], #[trigger] s2[q]) by {
                assert(s2[p] == s[p] && s2[q] == s[q]);
            }
        }
        assert(frequency_ordered(a, t2)) by {
            assert forall|p: int, q: int| 0 <= p < q < t2.len() implies comes_before(a, #[trigger] t2[p], #[trigger] t2[q]) by {
                assert(t2[p] == t[p] && t2[q] == t[q]);
            }
        }
        law_frequency_order_unique(a, s2, t2);
        assert(s =~= s2.push(x));
        assert(t =~= t2.push(y));
    }
}

/// Splits code points into subsets that tend to occur on the same pages.
pub struct AdjacencySplitter;

impl AdjacencySplitter {
    /// The subsets for `chars`: taking the code points from the rarest (then the smallest) on,
    /// the groups of `adjacency_groups`, each with its code points in increasing order and
    /// named `ss0`, `ss1`, ... in turn.
    pub fn split(&self, a: &AdjacencyArray, chars: &CharacterSet) -> (r: Vec<(String, Vec<u32>)>)
        ensures
            exists|order: Seq<u32>|
                order.to_set() == chars@ && order.no_duplicates() && frequency_ordered(*a, order) && r@.len()
                    == groups_of(*a, order).len() && forall|i: int|
                    0 <= i < r@.len() ==> {
                        &&& (#[trigger] r@[i]).0@ == "ss"@ + decimal(i as nat)
                        &&& strictly_increasing(r@[i].1@)
                        &&& r@[i].1@.to_set() == groups_of(*a, order)[i].to_set()
                    },
    {
        let order = frequency_order(a, chars);
        let groups = adjacency_groups(a, &order);
        let ghost gs = groups_of(*a, order@);
        let mut out: Vec<(String, Vec<u32>)> = Vec::new();
        let mut i: usize = 0;
        while i < groups.len()
            invariant
                i <= groups@.len(),
                views(groups@) == gs,
                out@.len() == i,
                forall|q: int| 0 <= q < i ==> {
                    &&& (#[trigger] out@[q]).0@ == "ss"@ + decimal(q as nat)
                    &&& strictly_increasing(out@[q].1@)
                    &&& out@[q].1@.to_set() == gs[q].to_set()
                },
            decreases groups@.len() - i,
        {
            let mut name: Vec<char> = Vec::new();
            push_str(&mut name, "ss");
            push_decimal(&mut name, i as u64);
            let sorted = sort_distinct(&groups[i]);
            proof {
                assert(gs[i as int] == groups@[i as int]@);
            }
            out.push((string_from_chars(&name), sorted));
            i = i + 1;
        }
        proof {
            assert(gs.len() == groups@.len());
        }
        out
    }
}

} // verus!
