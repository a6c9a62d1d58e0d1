//! Sets of Unicode code points (as `u32`), with a delta-encoded compressed form.
use vstd::prelude::*;
use std::collections::HashSet;
use crate::sort::{sort_distinct, strictly_increasing, lemma_push_to_set, lemma_strictly_increasing_unique};
use vstd::std_specs::hash::{spec_hash_keys_iter, axiom_spec_hash_keys_iter};
use vstd::std_specs::iter::IteratorSpec;

verus! {

broadcast use vstd::std_specs::hash::group_hash_axioms;

/// A set of code points.
pub struct CharacterSet {
    set: HashSet<u32>,
}

impl View for CharacterSet {
    type V = Set<u32>;

    closed spec fn view(&self) -> Set<u32> {
        self.set@
    }
}

/// The sum of the first `n` values of `d`.
pub open spec fn running_sum(d: Seq<u32>, n: nat) -> int
    decreases n,
{
    if n == 0 || n > d.len() {
        0
    } else {
        running_sum(d, (n - 1) as nat) + d[n - 1]
    }
}

/// The values that a delta-encoded sequence stands for: its prefix sums.
pub open spec fn decoded(d: Seq<u32>) -> Seq<int> {
    Seq::new(d.len(), |i: int| running_sum(d, (i + 1) as nat))
}

/// Every prefix sum of `d` fits in a `u32`.
pub open spec fn decodable(d: Seq<u32>) -> bool {
    running_sum(d, d.len()) <= u32::MAX
}

/// The set of code points that a delta-encoded sequence stands for.
pub open spec fn decoded_set(d: Seq<u32>) -> Set<u32> {
    Set::new(|x: u32| decoded(d).contains(x as int))
}

/// `d` is the canonical delta encoding: its prefix sums are strictly increasing.
pub open spec fn canonical(d: Seq<u32>) -> bool {
    forall|i: int, j: int| 0 <= i < j < d.len() ==> decoded(d)[i] < decoded(d)[j]
}

/// A compressed character set: the sorted code points, delta encoded.
///
/// This does not take less memory, but compresses better, as it is delta encoded and not in a
/// random order as a hash set would be.
#[derive(Debug)]
pub struct CompressedCharacterSet {
    deltas: Vec<u32>,
}

impl View for CompressedCharacterSet {
    type V = Seq<u32>;

    closed spec fn view(&self) -> Seq<u32> {
        self.deltas@
    }
}

pub proof fn lemma_running_sum_monotone(d: Seq<u32>, a: nat, b: nat)
    requires
        a <= b <= d.len(),
    ensures
        running_sum(d, a) <= running_sum(d, b),
    decreases b - a,
{
    if a < b {
        lemma_running_sum_monotone(d, a, (b - 1) as nat);
    }
}

pub proof fn lemma_running_sum_nonneg(d: Seq<u32>, a: nat)
    ensures
        running_sum(d, a) >= 0,
    decreases a,
{
    if a > 0 && a <= d.len() {
        lemma_running_sum_nonneg(d, (a - 1) as nat);
    }
}

/// Each prefix sum of a decodable sequence fits in a `u32`.
proof fn lemma_decoded_in_range(d: Seq<u32>, i: int)
    requires
        decodable(d),
        0 <= i < d.len(),
    ensures
        0 <= decoded(d)[i] <= u32::MAX,
{
    lemma_running_sum_monotone(d, (i + 1) as nat, d.len());
    lemma_running_sum_nonneg(d, (i + 1) as nat);
}

/// The canonical compressed form of a set is unique: two canonical, decodable delta sequences
/// that stand for the same set of code points are equal. So compressing a set that was
/// decompressed from a canonical form gives that form back.
pub proof fn law_compressed_form_unique(a: Seq<u32>, b: Seq<u32>)
    requires
        canonical(a),
        canonical(b),
        decodable(a),
        decodable(b),
        decoded_set(a) == decoded_set(b),
    ensures
        a == b,
{
    let ua = decoded(a).map_values(|v: int| v as u32);
    let ub = decoded(b).map_values(|v: int| v as u32);
    assert forall|i: int| 0 <= i < a.len() implies ua[i] as int == decoded(a)[i] by {
        lemma_decoded_in_range(a, i);
    }
    assert forall|i: int| 0 <= i < b.len() implies ub[i] as int == decoded(b)[i] by {
        lemma_decoded_in_range(b, i);
    }
    assert(strictly_increasing(ua));
    assert(strictly_increasing(ub));
    assert forall|x: u32| ua.to_set().contains(x) == ub.to_set().contains(x) by {
        if ua.to_set().contains(x) {
            let i = choose|i: int| 0 <= i < ua.len() && ua[i] == x;
            assert(decoded(a)[i] == x as int);
            assert(decoded_set(a).contains(x));
            assert(decoded_set(b).contains(x));
            let j = choose|j: int| 0 <= j < decoded(b).len() && decoded(b)[j] == x as int;
            assert(ub[j] == x);
        }
        if ub.to_set().contains(x) {
            let i = choose|i: int| 0 <= i < ub.len() && ub[i] == x;
            assert(decoded(b)[i] == x as int);
            assert(decoded_set(b).contains(x));
            assert(decoded_set(a).contains(x));
            let j = choose|j: int| 0 <= j < decoded(a).len() && decoded(a)[j] == x as int;
            assert(ua[j] == x);
        }
    }
    assert(ua.to_set() =~= ub.to_set());
    lemma_strictly_increasing_unique(ua, ub);
    assert(a.len() == b.len());
    assert forall|i: int| 0 <= i < a.len() implies a[i] == b[i] by {
        assert(ua[i] == ub[i]);
        assert(decoded(a)[i] == decoded(b)[i]);
        assert(running_sum(a, (i + 1) as nat) == running_sum(a, i as nat) + a[i]);
        assert(running_sum(b, (i + 1) as nat) == running_sum(b, i as nat) + b[i]);
        if i > 0 {
            assert(ua[i - 1] == ub[i - 1]);
            assert(decoded(a)[i - 1] == decoded(b)[i - 1]);
        }
    }
    assert(a =~= b);
}

impl Clone for CompressedCharacterSet {
    fn clone(&self) -> (c: Self)
        ensures
            c@ == self@,
    {
        proof { use_type_invariant(self); }
        let deltas = self.deltas.clone();
        assert(deltas@ =~= self.deltas@);
        CompressedCharacterSet { deltas }
    }
}

impl CompressedCharacterSet {
    /// Every compressed set stands for code points that fit in a `u32`.
    #[verifier::type_invariant]
    closed spec fn inv(self) -> bool {
        decodable(self.deltas@)
    }

    /// The delta-encoded values.
    pub fn deltas(&self) -> (d: &Vec<u32>)
        ensures
            d@ == self@,
    {
        &self.deltas
    }

    /// Rebuilds a compressed set from its deltas, if every prefix sum fits in a `u32`.
    pub fn from_deltas(deltas: Vec<u32>) -> (r: Option<Self>)
        ensures
            r is Some <==> decodable(deltas@),
            r matches Some(c) ==> c@ == deltas@,
    {
        let mut total: u64 = 0;
        let mut i: usize = 0;
        while i < deltas.len()
            invariant
                i <= deltas@.len(),
                total == running_sum(deltas@, i as nat),
                total <= u32::MAX,
            decreases deltas@.len() - i,
        {
            let next = total + deltas[i] as u64;
            if next > u32::MAX as u64 {
                proof {
                    lemma_running_sum_monotone(deltas@, (i + 1) as nat, deltas@.len());
                }
                return None;
            }
            total = next;
            i = i + 1;
        }
        Some(CompressedCharacterSet { deltas })
    }
}


/// The elements of a set handed out one at a time.
pub struct CharacterSetIter {
    items: Vec<u32>,
    pos: usize,
}

impl CharacterSetIter {
    /// The elements not yet handed out, in the order they will come.
    pub closed spec fn remaining(&self) -> Seq<u32> {
        self.items@.skip(self.pos as int)
    }

    pub closed spec fn wf(&self) -> bool {
        self.pos <= self.items@.len()
    }

    /// Hands out the next element, if any is left.
    pub fn next(&mut self) -> (r: Option<u32>)
        requires
            old(self).wf(),
        ensures
            final(self).wf(),
            old(self).remaining().len() == 0 ==> r is None && final(self).remaining() == old(self).remaining(),
            old(self).remaining().len() > 0 ==> r == Some(old(self).remaining()[0])
                && final(self).remaining() == old(self).remaining().drop_first(),
    {
        if self.pos < self.items.len() {
            let x = self.items[self.pos];
            let ghost before = self.remaining();
            self.pos = self.pos + 1;
            assert(self.remaining() =~= before.drop_first());
            Some(x)
        } else {
            None
        }
    }
}

/// The owned elements of a set handed out one at a time.
pub struct CharacterSetIntoIter(CharacterSetIter);

impl CharacterSetIntoIter {
    pub closed spec fn remaining(&self) -> Seq<u32> {
        self.0.remaining()
    }

    pub closed spec fn wf(&self) -> bool {
        self.0.wf()
    }

    /// Hands out the next element, if any is left.
    pub fn next(&mut self) -> (r: Option<u32>)
        requires
            old(self).wf(),
        ensures
            final(self).wf(),
            old(self).remaining().len() == 0 ==> r is None && final(self).remaining() == old(self).remaining(),
            old(self).remaining().len() > 0 ==> r == Some(old(self).remaining()[0])
                && final(self).remaining() == old(self).remaining().drop_first(),
    {
        self.0.next()
    }
}

impl CharacterSet {
    pub closed spec fn wf(&self) -> bool {
        self@.finite()
    }

    /// Creates an empty set.
    pub fn new() -> (s: Self)
        ensures
            s@ == Set::<u32>::empty(),
    {
        CharacterSet { set: HashSet::with_capacity(128) }
    }

    /// Adds a code point; returns whether it was absent.
    pub fn insert(&mut self, character: u32) -> (added: bool)
        ensures
            final(self)@ == old(self)@.insert(character),
            added == !old(self)@.contains(character),
    {
        self.set.insert(character)
    }

    /// Removes a code point; returns whether it was present.
    pub fn remove(&mut self, character: u32) -> (removed: bool)
        ensures
            final(self)@ == old(self)@.remove(character),
            removed == old(self)@.contains(character),
    {
        self.set.remove(&character)
    }

    /// Whether the set holds `character`.
    pub fn contains(&self, character: u32) -> (r: bool)
        ensures
            r == self@.contains(character),
    {
        self.set.contains(&character)
    }

    /// The elements of the set, each once, in no particular order.
    pub(crate) fn to_vec(&self) -> (v: Vec<u32>)
        ensures
            v@.to_set() == self@,
            v@.no_duplicates(),
            v@.len() == self@.len(),
            self@.finite(),
    {
        let mut v: Vec<u32> = Vec::new();
        let ghost keys = spec_hash_keys_iter(&self.set).remaining().unref();
        proof {
            axiom_spec_hash_keys_iter(&self.set);
        }
        for x in it: self.set.iter()
            invariant
                it.seq().unref() == keys,
                v@ == keys.take(it.index()),
        {
            v.push(*x);
            assert(keys.take(it.index() + 1) == keys.take(it.index()).push(*x));
        }
        assert(keys.take(keys.len() as int) == keys);
        proof {
            keys.unique_seq_to_set();
            vstd::seq_lib::seq_to_set_is_finite(keys);
        }
        v
    }

    /// Number of code points in the set.
    pub fn len(&self) -> (n: usize)
        ensures
            n == self@.len(),
            self@.finite(),
    {
        proof {
            axiom_spec_hash_keys_iter(&self.set);
            vstd::seq_lib::seq_to_set_is_finite(spec_hash_keys_iter(&self.set).remaining().unref());
        }
        self.set.len()
    }

    /// Whether the set is empty.
    pub fn is_empty(&self) -> (r: bool)
        ensures
            r == (self@ == Set::<u32>::empty()),
    {
        let r = self.set.is_empty();
        proof {
            if !r {
                assert(!(self@ =~= Set::<u32>::empty()));
            }
        }
        r
    }

    /// Returns an iterator over the set's elements.
    pub fn iter(&self) -> (it: CharacterSetIter)
        ensures
            it.wf(),
            it.remaining().to_set() == self@,
            it.remaining().no_duplicates(),
    {
        let items = self.to_vec();
        let it = CharacterSetIter { items, pos: 0 };
        assert(it.remaining() =~= items@);
        it
    }

    /// Converts this into an iterator over its elements.
    pub fn into_iter(self) -> (it: CharacterSetIntoIter)
        ensures
            it.wf(),
            it.remaining().to_set() == self@,
            it.remaining().no_duplicates(),
    {
        CharacterSetIntoIter(self.iter())
    }
}


impl CharacterSet {
    /// Adds every code point of `chars`.
    pub fn extend(&mut self, chars: &Vec<u32>)
        ensures
            final(self)@ == old(self)@ + chars@.to_set(),
    {
        let ghost start = self@;
        let mut i: usize = 0;
        while i < chars.len()
            invariant
                i <= chars@.len(),
                self@ == start + chars@.take(i as int).to_set(),
            decreases chars@.len() - i,
        {
            self.insert(chars[i]);
            proof {
                lemma_push_to_set(chars@.take(i as int), chars@[i as int]);
                assert(chars@.take(i + 1) == chars@.take(i as int).push(chars@[i as int]));
                assert(self@ =~= start + chars@.take(i + 1).to_set());
            }
            i = i + 1;
        }
        assert(chars@.take(chars@.len() as int) == chars@);
    }

    /// The code points in both sets.
    pub fn bitand(self, rhs: &CharacterSet) -> (r: CharacterSet)
        ensures
            r@ == self@.intersect(rhs@),
    {
        let items = self.to_vec();
        let mut r = CharacterSet::new();
        let mut i: usize = 0;
        while i < items.len()
            invariant
                i <= items@.len(),
                items@.to_set() == self@,
                r@ == items@.take(i as int).to_set().intersect(rhs@),
            decreases items@.len() - i,
        {
            let x = items[i];
            if rhs.contains(x) {
                r.insert(x);
            }
            proof {
                lemma_push_to_set(items@.take(i as int), x);
                assert(items@.take(i + 1) == items@.take(i as int).push(x));
                assert(r@ =~= items@.take(i + 1).to_set().intersect(rhs@));
            }
            i = i + 1;
        }
        assert(items@.take(items@.len() as int) == items@);
        r
    }

    /// The code points in either set.
    pub fn bitor(self, rhs: &CharacterSet) -> (r: CharacterSet)
        ensures
            r@ == self@.union(rhs@),
    {
        let mut out = self;
        let items = rhs.to_vec();
        out.extend(&items);
        out
    }

    /// The code points in exactly one of the sets.
    pub fn bitxor(self, rhs: &CharacterSet) -> (r: CharacterSet)
        ensures
            r@ == self@.difference(rhs@).union(rhs@.difference(self@)),
    {
        let ghost start = self@;
        let mut out = self;
        let items = rhs.to_vec();
        let mut i: usize = 0;
        while i < items.len()
            invariant
                i <= items@.len(),
                items@.to_set() == rhs@,
                items@.no_duplicates(),
                out@ == start.difference(items@.take(i as int).to_set())
                    .union(items@.take(i as int).to_set().difference(start)),
            decreases items@.len() - i,
        {
            let x = items[i];
            proof {
                assert(!items@.take(i as int).contains(x));
            }
            if !out.contains(x) {
                out.insert(x);
            } else {
                out.remove(x);
            }
            proof {
                lemma_push_to_set(items@.take(i as int), x);
                assert(items@.take(i + 1) == items@.take(i as int).push(x));
                assert(out@ =~= start.difference(items@.take(i + 1).to_set())
                    .union(items@.take(i + 1).to_set().difference(start)));
            }
            i = i + 1;
        }
        assert(items@.take(items@.len() as int) == items@);
        out
    }

    /// The code points of `self` that are not in `rhs`.
    pub fn sub(self, rhs: &CharacterSet) -> (r: CharacterSet)
        ensures
            r@ == self@.difference(rhs@),
    {
        let ghost start = self@;
        let mut out = self;
        let items = rhs.to_vec();
        let mut i: usize = 0;
        while i < items.len()
            invariant
                i <= items@.len(),
                items@.to_set() == rhs@,
                out@ == start.difference(items@.take(i as int).to_set()),
            decreases items@.len() - i,
        {
            let x = items[i];
            out.remove(x);
            proof {
                lemma_push_to_set(items@.take(i as int), x);
                assert(items@.take(i + 1) == items@.take(i as int).push(x));
                assert(out@ =~= start.difference(items@.take(i + 1).to_set()));
            }
            i = i + 1;
        }
        assert(items@.take(items@.len() as int) == items@);
        out
    }
}


impl CharacterSet {
    /// Compresses a character set: its code points in increasing order, delta encoded.
    pub fn compressed(&self) -> (c: CompressedCharacterSet)
        ensures
            canonical(c@),
            decodable(c@),
            decoded_set(c@) == self@,
            c@.len() == self@.len(),
    {
        let items = self.to_vec();
        let sorted = sort_distinct(&items);
        proof {
            sorted@.unique_seq_to_set();
            assert(sorted@.no_duplicates()) by {
                assert forall|i: int, j: int| 0 <= i < sorted@.len() && 0 <= j < sorted@.len() && i != j
                    implies sorted@[i] != sorted@[j] by {
                    if i < j { assert(sorted@[i] < sorted@[j]); } else { assert(sorted@[j] < sorted@[i]); }
                }
            }
            sorted@.unique_seq_to_set();
            items@.unique_seq_to_set();
        }
        let mut deltas: Vec<u32> = Vec::new();
        let mut i: usize = 0;
        while i < sorted.len()
            invariant
                i <= sorted@.len(),
                strictly_increasing(sorted@),
                deltas@.len() == i,
                forall|k: int| 1 <= k <= i ==> #[trigger] running_sum(deltas@, k as nat) == sorted@[k - 1],
            decreases sorted@.len() - i,
        {
            let d = if i == 0 { sorted[0] } else { sorted[i] - sorted[i - 1] };
            let ghost old_d = deltas@;
            proof {
                if i > 0 {
                    let ii: int = i as int;
                    assert(1 <= ii <= i);
                    assert(running_sum(deltas@, ii as nat) == sorted@[ii - 1]);
                    assert(running_sum(old_d, (i as int) as nat) == sorted@[i - 1]);
                    assert(sorted@[i - 1] < sorted@[i as int]);
                }
            }
            deltas.push(d);
            proof {
                assert(old_d == deltas@.take(i as int));
                assert forall|k: int| 1 <= k <= i + 1 implies #[trigger] running_sum(deltas@, k as nat) == sorted@[k - 1] by {
                    if k <= i {
                        lemma_running_sum_prefix(old_d, deltas@, k as nat);
                    } else {
                        lemma_running_sum_prefix(old_d, deltas@, i as nat);
                        if i > 0 {
                            assert(running_sum(old_d, (i as int) as nat) == sorted@[i - 1]);
                        }
                    }
                }
            }
            i = i + 1;
        }
        proof {
            if deltas@.len() > 0 {
                let n: int = deltas@.len() as int;
                assert(running_sum(deltas@, n as nat) == sorted@[n - 1]);
            }
        }
        let c = CompressedCharacterSet { deltas };
        proof {
            assert forall|k: int| 0 <= k < c@.len() implies decoded(c@)[k] == sorted@[k] as int by {
                assert(running_sum(c@, (k + 1) as nat) == sorted@[(k + 1) - 1]);
            }
            assert forall|x: u32| decoded_set(c@).contains(x) <==> self@.contains(x) by {
                if decoded_set(c@).contains(x) {
                    let k = choose|k: int| 0 <= k < decoded(c@).len() && decoded(c@)[k] == x as int;
                    assert(sorted@[k] == x);
                    assert(sorted@.to_set().contains(x));
                }
                if self@.contains(x) {
                    assert(sorted@.to_set().contains(x));
                    let k = choose|k: int| 0 <= k < sorted@.len() && sorted@[k] == x;
                    assert(decoded(c@)[k] == x as int);
                }
            }
            assert(decoded_set(c@) =~= self@);
            if c@.len() > 0 {
                assert(running_sum(c@, c@.len()) == sorted@[c@.len() - 1]);
            }
        }
        c
    }

    /// Decompresses a character set.
    pub fn decompress(data: &CompressedCharacterSet) -> (s: Self)
        ensures
            s@ == decoded_set(data@),
    {
        proof { use_type_invariant(data); }
        let d = data.deltas();
        let mut s = CharacterSet::new();
        let mut total: u32 = 0;
        let mut i: usize = 0;
        while i < d.len()
            invariant
                i <= d@.len(),
                d@ == data@,
                decodable(d@),
                total == running_sum(d@, i as nat),
                s@ == Set::new(|x: u32| decoded(d@).take(i as int).contains(x as int)),
            decreases d@.len() - i,
        {
            proof {
                lemma_running_sum_monotone(d@, (i + 1) as nat, d@.len());
            }
            total = total + d[i];
            s.insert(total);
            proof {
                broadcast use vstd::seq_lib::group_seq_properties;
                assert(decoded(d@).take(i + 1) == decoded(d@).take(i as int).push(total as int));
                assert forall|x: u32| s@.contains(x) <==> decoded(d@).take(i + 1).contains(x as int) by {
                    if x == total {
                        assert(decoded(d@).take(i + 1)[i as int] == total as int);
                    }
                }
                assert(s@ =~= Set::new(|x: u32| decoded(d@).take(i + 1).contains(x as int)));
            }
            i = i + 1;
        }
        assert(decoded(d@).take(d@.len() as int) == decoded(d@));
        assert(s@ =~= decoded_set(data@));
        s
    }
}

/// Extending a sequence leaves the running sums of its prefix unchanged.
proof fn lemma_running_sum_prefix(a: Seq<u32>, b: Seq<u32>, n: nat)
    requires
        n <= a.len() <= b.len(),
        a == b.take(a.len() as int),
    ensures
        running_sum(a, n) == running_sum(b, n),
    decreases n,
{
    if n > 0 {
        lemma_running_sum_prefix(a, b, (n - 1) as nat);
    }
}

impl Clone for CharacterSet {
    /// A set with the same code points.
    fn clone(&self) -> (c: Self)
        ensures
            c@ == self@,
    {
        let mut c = CharacterSet::new();
        c.extend(&self.to_vec());
        assert(c@ =~= self@);
        c
    }
}

impl Default for CharacterSet {
    /// An empty set.
    fn default() -> (s: Self)
        ensures
            s@ == Set::<u32>::empty(),
    {
        CharacterSet::new()
    }
}

} // verus!
