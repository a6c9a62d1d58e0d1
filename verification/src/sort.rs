//! Sorting of `u32` values into strictly increasing order (duplicates merged).
use vstd::prelude::*;

verus! {

/// `s` is strictly increasing.
pub open spec fn strictly_increasing(s: Seq<u32>) -> bool {
    forall|i: int, j: int| 0 <= i < j < s.len() ==> s[i] < s[j]
}

/// Pushing onto a sequence inserts into its set of elements.
pub proof fn lemma_push_to_set<A>(s: Seq<A>, x: A)
    ensures
        s.push(x).to_set() == s.to_set().insert(x),
{
    assert forall|y: A| s.push(x).to_set().contains(y) <==> s.to_set().insert(x).contains(y) by {
        if s.push(x).to_set().contains(y) {
            let k = choose|k: int| 0 <= k < s.push(x).len() && s.push(x)[k] == y;
            if k < s.len() {
                assert(s[k] == y);
            }
        }
        if s.to_set().contains(y) && y != x {
            let k = choose|k: int| 0 <= k < s.len() && s[k] == y;
            assert(s.push(x)[k] == y);
        }
        if y == x {
            assert(s.push(x)[s.len() as int] == x);
        }
    }
    assert(s.push(x).to_set() =~= s.to_set().insert(x));
}

/// Merges two strictly increasing sequences into the strictly increasing sequence of their union.
fn merge(a: &Vec<u32>, b: &Vec<u32>) -> (r: Vec<u32>)
    requires
        strictly_increasing(a@),
        strictly_increasing(b@),
    ensures
        strictly_increasing(r@),
        r@.to_set() == a@.to_set() + b@.to_set(),
        r@.len() <= a@.len() + b@.len(),
{
    let mut r: Vec<u32> = Vec::new();
    let mut i: usize = 0;
    let mut j: usize = 0;
    while i < a.len() || j < b.len()
        invariant
            i <= a@.len(),
            j <= b@.len(),
            strictly_increasing(a@),
            strictly_increasing(b@),
            strictly_increasing(r@),
            r@.len() <= i + j,
            r@.to_set() == a@.subrange(0, i as int).to_set() + b@.subrange(0, j as int).to_set(),
            // everything emitted is below what remains
            forall|k: int| 0 <= k < r@.len() ==> (i < a@.len() ==> #[trigger] r@[k] < a@[i as int]),
            forall|k: int| 0 <= k < r@.len() ==> (j < b@.len() ==> #[trigger] r@[k] < b@[j as int]),
        decreases a@.len() + b@.len() - i - j,
    {
        let ghost old_r = r@;
        let take_a = j >= b.len() || (i < a.len() && a[i] <= b[j]);
        if take_a {
            let x = a[i];
            r.push(x);
            proof { lemma_push_to_set(a@.subrange(0, i as int), x); }
            if j < b.len() && b[j] == x {
                proof { lemma_push_to_set(b@.subrange(0, j as int), x); }
                j = j + 1;
                assert(b@.subrange(0, j as int) == b@.subrange(0, j - 1).push(x));
            }
            i = i + 1;
            assert(a@.subrange(0, i as int) == a@.subrange(0, i - 1).push(x));
        } else {
            let x = b[j];
            r.push(x);
            proof { lemma_push_to_set(b@.subrange(0, j as int), x); }
            j = j + 1;
            assert(b@.subrange(0, j as int) == b@.subrange(0, j - 1).push(x));
        }
        assert(r@ == old_r.push(r@.last()));
        proof { lemma_push_to_set(old_r, r@.last()); }
    }
    assert(a@.subrange(0, a@.len() as int) == a@);
    assert(b@.subrange(0, b@.len() as int) == b@);
    r
}

fn sort_range(v: &Vec<u32>, lo: usize, hi: usize) -> (r: Vec<u32>)
    requires
        lo <= hi <= v@.len(),
    ensures
        strictly_increasing(r@),
        r@.to_set() == v@.subrange(lo as int, hi as int).to_set(),
        r@.len() <= hi - lo,
    decreases hi - lo,
{
    if hi - lo == 0 {
        let r: Vec<u32> = Vec::new();
        assert(r@.to_set() =~= v@.subrange(lo as int, hi as int).to_set());
        r
    } else if hi - lo == 1 {
        let mut r: Vec<u32> = Vec::new();
        r.push(v[lo]);
        assert(r@ == v@.subrange(lo as int, hi as int));
        r
    } else {
        let mid = lo + (hi - lo) / 2;
        let left = sort_range(v, lo, mid);
        let right = sort_range(v, mid, hi);
        let r = merge(&left, &right);
        proof {
            let s = v@.subrange(lo as int, hi as int);
            assert(s == v@.subrange(lo as int, mid as int) + v@.subrange(mid as int, hi as int));
            assert forall|x: u32| s.to_set().contains(x) <==> r@.to_set().contains(x) by {
                if s.to_set().contains(x) {
                    let k = choose|k: int| 0 <= k < s.len() && s[k] == x;
                    if k < mid - lo {
                        assert(v@.subrange(lo as int, mid as int)[k] == x);
                    } else {
                        assert(v@.subrange(mid as int, hi as int)[k - (mid - lo)] == x);
                    }
                }
                if r@.to_set().contains(x) {
                    if v@.subrange(lo as int, mid as int).to_set().contains(x) {
                        let k = choose|k: int| 0 <= k < mid - lo && v@.subrange(lo as int, mid as int)[k] == x;
                        assert(s[k] == x);
                    } else {
                        let k = choose|k: int| 0 <= k < hi - mid && v@.subrange(mid as int, hi as int)[k] == x;
                        assert(s[k + (mid - lo)] == x);
                    }
                }
            }
            assert(s.to_set() =~= r@.to_set());
        }
        r
    }
}

/// Returns the distinct values of `v` in strictly increasing order.
pub fn sort_distinct(v: &Vec<u32>) -> (r: Vec<u32>)
    ensures
        strictly_increasing(r@),
        r@.to_set() == v@.to_set(),
        r@.len() <= v@.len(),
{
    let r = sort_range(v, 0, v.len());
    assert(v@.subrange(0, v@.len() as int) == v@);
    r
}

/// A finite set has only one strictly increasing enumeration.
pub proof fn lemma_strictly_increasing_unique(a: Seq<u32>, b: Seq<u32>)
    requires
        strictly_increasing(a),
        strictly_increasing(b),
        a.to_set() == b.to_set(),
    ensures
        a == b,
    decreases a.len() + b.len(),
{
    if a.len() == 0 || b.len() == 0 {
        if a.len() > 0 {
            assert(a.to_set().contains(a[0]));
        }
        if b.len() > 0 {
            assert(b.to_set().contains(b[0]));
        }
        assert(a =~= b);
    } else {
        // the largest elements agree
        let x = a.last();
        let y = b.last();
        assert(a.to_set().contains(x));
        assert(b.to_set().contains(y));
        let i = choose|i: int| 0 <= i < b.len() && b[i] == x;
        let j = choose|j: int| 0 <= j < a.len() && a[j] == y;
        assert(x == y);
        let a2 = a.drop_last();
        let b2 = b.drop_last();
        assert forall|v: u32| a2.to_set().contains(v) <==> b2.to_set().contains(v) by {
            if a2.to_set().contains(v) {
                let k = choose|k: int| 0 <= k < a2.len() && a2[k] == v;
                assert(a[k] == v && v < x);
                assert(b.to_set().contains(v));
                let m = choose|m: int| 0 <= m < b.len() && b[m] == v;
                assert(m != b.len() - 1);
                assert(b2[m] == v);
            }
            if b2.to_set().contains(v) {
                let k = choose|k: int| 0 <= k < b2.len() && b2[k] == v;
                assert(b[k] == v && v < y);
                assert(a.to_set().contains(v));
                let m = choose|m: int| 0 <= m < a.len() && a[m] == v;
                assert(m != a.len() - 1);
                assert(a2[m] == v);
            }
        }
        assert(a2.to_set() =~= b2.to_set());
        lemma_strictly_increasing_unique(a2, b2);
        assert(a =~= a2.push(x));
        assert(b =~= b2.push(y));
    }
}

/// What a sequence holds after a push.
pub proof fn lemma_push_contains<A>(s: Seq<A>, v: A, x: A)
    ensures
        s.push(v).contains(x) <==> (s.contains(x) || x == v),
{
    if s.contains(x) {
        let k = choose|k: int| 0 <= k < s.len() && s[k] == x;
        assert(s.push(v)[k] == x);
    }
    if x == v {
        assert(s.push(v)[s.len() as int] == v);
    }
    if s.push(v).contains(x) {
        let k = choose|k: int| 0 <= k < s.push(v).len() && s.push(v)[k] == x;
        if k < s.len() {
            assert(s[k] == x);
        }
    }
}

/// A sequence of distinct values below `bound` is at most `bound` long.
pub proof fn lemma_distinct_below(s: Seq<u32>, bound: int)
    requires
        s.no_duplicates(),
        bound >= 0,
        forall|i: int| 0 <= i < s.len() ==> (#[trigger] s[i] as int) < bound,
    ensures
        s.len() <= bound,
{
    let m = s.map_values(|x: u32| x as int);
    assert(m.no_duplicates()) by {
        assert forall|i: int, j: int| 0 <= i < m.len() && 0 <= j < m.len() && i != j implies m[i] != m[j] by {
            assert(s[i] != s[j]);
        }
    }
    m.unique_seq_to_set();
    vstd::set_lib::lemma_int_range(0, bound);
    assert(m.to_set().subset_of(vstd::set_lib::set_int_range(0, bound))) by {
        assert forall|x: int| m.to_set().contains(x) implies vstd::set_lib::set_int_range(0, bound).contains(x) by {
            let k = choose|k: int| 0 <= k < m.len() && m[k] == x;
            assert(s[k] as int == x);
        }
    }
    vstd::set_lib::lemma_len_subset(m.to_set(), vstd::set_lib::set_int_range(0, bound));
}

} // verus!
