//! The adjacency bloom filter: its parameters and double-hashing probe sequence, the builder
//! that records the largest count seen in each probed slot, and the lookups of the filter.
use vstd::prelude::*;
use std::collections::HashMap;
use crate::sort::{strictly_increasing, sort_distinct};
use vstd::arithmetic::power2::pow2;
use crate::hashing::{wyhash_of_pair, wyhash_of_str, wyrand_output, wyrand_increment,
    wyhash_pair, wyhash_str, wyrand_step};

verus! {

/// Seed of the hash that derives a filter's seeds from its name.
pub const XXH_SEED_BASE: u64 = 0x463dd552aaeaa6a5;

/// `n` is a power of two (`usize::is_power_of_two`).
pub open spec fn is_power_of_two(n: int) -> bool {
    exists|k: nat| k < 64 && n == pow2(k)
}

/// Wrapping addition of two `u64`s.
pub open spec fn add_u64(a: u64, b: u64) -> u64 {
    ((a + b) % 0x1_0000_0000_0000_0000) as u64
}

#[derive(Copy, Clone, Debug)]
pub struct FilterParams {
    pub size: usize,
    pub mask: usize,
    pub hash_count: usize,
    pub seed_a: u64,
    pub seed_b: u64,
}

/// The seeds derived from a filter's name: the first two outputs of a wyrand generator seeded
/// with the name's hash.
pub open spec fn seeds_for(name: Seq<char>) -> (u64, u64) {
    let s0 = wyhash_of_str(XXH_SEED_BASE, name);
    let s1 = add_u64(s0, wyrand_increment() as u64);
    (wyrand_output(s0), wyrand_output(s1))
}

/// The probe sequence `(hash_a_k, hash_b_k)` after `k` steps of the double hashing.
pub open spec fn probe_state(ha: u64, hb: u64, k: nat) -> (u64, u64)
    decreases k,
{
    if k == 0 {
        (ha, hb)
    } else {
        let (a, b) = probe_state(ha, hb, (k - 1) as nat);
        let b2 = add_u64(b, (k - 1) as u64);
        (add_u64(a, b2), b2)
    }
}

impl FilterParams {
    /// The parameters are usable: the size is a nonzero power of two and the mask is `size - 1`.
    pub open spec fn valid(&self) -> bool {
        &&& self.size != 0
        &&& is_power_of_two(self.size as int)
        &&& self.mask == self.size - 1
    }

    /// The `k`-th table index that `do_hash` probes for `value`.
    pub open spec fn probe(&self, value: (u32, u32), k: nat) -> usize {
        let ha = wyhash_of_pair(self.seed_a, value.0, value.1);
        let hb = wyhash_of_pair(self.seed_b, value.0, value.1);
        let (a, _b) = probe_state(ha, hb, k);
        ((a as usize) & self.mask) as usize
    }

    /// Makes the parameters of a filter named `name` with `size` slots and `hash_count` probes.
    pub fn new(name: &str, size: usize, hash_count: usize) -> (p: Self)
        requires
            is_power_of_two(size as int),
        ensures
            p.size == size,
            p.mask == size - 1,
            p.hash_count == hash_count,
            (p.seed_a, p.seed_b) == seeds_for(name@),
            p.valid(),
    {
        proof {
            vstd::arithmetic::power2::lemma_pow2_pos(choose|k: nat| k < 64 && size == pow2(k));
        }
        let mask = size - 1;
        let s0 = wyhash_str(XXH_SEED_BASE, name);
        let (seed_a, s1) = wyrand_step(s0);
        let (seed_b, _s2) = wyrand_step(s1);
        FilterParams { size, mask, hash_count, seed_a, seed_b }
    }

    /// The table indices probed for `value`, in order: `hash_count` of them, each masked into
    /// the table.
    #[verifier::rlimit(30)]
    pub fn do_hash(self, value: (u32, u32)) -> (idx: Vec<usize>)
        ensures
            idx@.len() == self.hash_count,
            forall|k: int| 0 <= k < self.hash_count ==> #[trigger] idx@[k] == self.probe(value, k as nat),
            forall|k: int| 0 <= k < self.hash_count ==> #[trigger] idx@[k] <= self.mask,
    {
        let mut hash_a = wyhash_pair(self.seed_a, value.0, value.1);
        let mut hash_b = wyhash_pair(self.seed_b, value.0, value.1);
        let ghost ha = hash_a;
        let ghost hb = hash_b;
        let mut idx: Vec<usize> = Vec::new();
        let mut i: usize = 0;
        while i < self.hash_count
            invariant
                i <= self.hash_count,
                ha == wyhash_of_pair(self.seed_a, value.0, value.1),
                hb == wyhash_of_pair(self.seed_b, value.0, value.1),
                idx@.len() == i,
                (hash_a, hash_b) == probe_state(ha, hb, i as nat),
                forall|k: int| 0 <= k < i ==> #[trigger] idx@[k] == self.probe(value, k as nat),
                forall|k: int| 0 <= k < i ==> #[trigger] idx@[k] <= self.mask,
            decreases self.hash_count - i,
        {
            hash_b = hash_b.wrapping_add(i as u64);
            let h = hash_a as usize;
            let m = self.mask;
            let slot = h & m;
            assert(slot <= m) by (bit_vector)
                requires slot == h & m;
            idx.push(slot);
            hash_a = hash_a.wrapping_add(hash_b);
            proof {
                assert(probe_state(ha, hb, (i + 1) as nat) == (hash_a, hash_b));
            }
            i = i + 1;
        }
        idx
    }
}

broadcast use vstd::std_specs::hash::group_hash_axioms;

/// What a filter knows of one code point: how often it occurs, the median and the largest count
/// of its pairs, and the id of its Unicode block.
#[derive(Copy, Clone, Debug)]
pub struct CodepointInfo {
    pub count: u64,
    pub edge_median: u64,
    pub edge_maximum: u64,
    pub block_id: u32,
}

/// A map from pairs, later pairs overriding earlier ones with the same key.
pub open spec fn info_map(s: Seq<(u32, CodepointInfo)>) -> Map<u32, CodepointInfo>
    decreases s.len(),
{
    if s.len() == 0 {
        Map::empty()
    } else {
        info_map(s.drop_last()).insert(s.last().0, s.last().1)
    }
}

/// A pair of code points in order: the smaller first.
pub open spec fn ordered_pair(a: u32, b: u32) -> (u32, u32) {
    if a <= b { (a, b) } else { (b, a) }
}

/// `data` after the slots probed for `value` (the first `k` probes) each took the larger of what
/// they held and `count`.
pub open spec fn raised(data: Seq<u64>, p: FilterParams, value: (u32, u32), count: u64, k: nat) -> Seq<u64> {
    Seq::new(data.len(), |j: int| if exists|q: nat| q < k && #[trigger] p.probe(value, q) == j {
        if data[j] < count { count } else { data[j] }
    } else {
        data[j]
    })
}

/// Recording a pair never lowers a slot, and leaves every slot that the pair probes holding at
/// least the recorded count: the table of maxima never underestimates a recorded pair.
pub proof fn law_raised_bounds(data: Seq<u64>, p: FilterParams, value: (u32, u32), count: u64)
    requires
        p.valid(),
        data.len() == p.size,
    ensures
        raised(data, p, value, count, p.hash_count as nat).len() == data.len(),
        forall|j: int| 0 <= j < data.len() ==> #[trigger] raised(data, p, value, count, p.hash_count as nat)[j] >= data[j],
        forall|q: nat| q < p.hash_count ==> p.probe(value, q) < data.len()
            && raised(data, p, value, count, p.hash_count as nat)[#[trigger] p.probe(value, q) as int] >= count,
{
    let r = raised(data, p, value, count, p.hash_count as nat);
    assert forall|q: nat| q < p.hash_count implies p.probe(value, q) < data.len()
        && r[#[trigger] p.probe(value, q) as int] >= count by {
        let ha = wyhash_of_pair(p.seed_a, value.0, value.1);
        let hb = wyhash_of_pair(p.seed_b, value.0, value.1);
        let a = probe_state(ha, hb, q).0 as usize;
        let m = p.mask;
        assert(a & m <= m) by (bit_vector);
        let j = p.probe(value, q) as int;
        assert(exists|k: nat| k < p.hash_count && #[trigger] p.probe(value, k) == j);
    }
}

/// The smallest byte in the slots probed for `value` by the first `k` probes; 255 for none.
pub open spec fn min_probe(data: Seq<u8>, p: FilterParams, value: (u32, u32), k: nat) -> u8
    decreases k,
{
    if k == 0 {
        255
    } else {
        let prev = min_probe(data, p, value, (k - 1) as nat);
        let here = data[p.probe(value, (k - 1) as nat) as int];
        if here < prev { here } else { prev }
    }
}

/// Records, for the pairs of code points, the largest count seen in each probed slot.
pub struct BloomFilterBuilder {
    codepoints: HashMap<u32, CodepointInfo>,
    params: FilterParams,
    data: Vec<u64>,
}

impl BloomFilterBuilder {
    /// The parameters are valid and there is one slot per table entry.
    pub closed spec fn well_formed(&self) -> bool {
        &&& self.params.valid()
        &&& self.data@.len() == self.params.size
    }

    /// What the builder knows of each code point.
    pub closed spec fn infos(&self) -> Map<u32, CodepointInfo> {
        self.codepoints@
    }

    /// The parameters of the filter.
    pub closed spec fn params(&self) -> FilterParams {
        self.params
    }

    /// The largest count seen in each slot.
    pub closed spec fn slots(&self) -> Seq<u64> {
        self.data@
    }

    /// A builder for a filter named `name` with `size` slots (a power of two) and `hash_count`
    /// probes, for the code points of `codepoints` (later pairs win); every slot starts at 0.
    pub fn new(name: &str, size: usize, hash_count: usize, codepoints: Vec<(u32, CodepointInfo)>) -> (b: Self)
        requires
            is_power_of_two(size as int),
        ensures
            b.params().size == size,
            b.params().hash_count == hash_count,
            (b.params().seed_a, b.params().seed_b) == seeds_for(name@),
            b.params().valid(),
            b.well_formed(),
            b.infos() == info_map(codepoints@),
            b.slots() == Seq::new(size as nat, |j: int| 0u64),
    {
        let params = FilterParams::new(name, size, hash_count);
        let mut map: HashMap<u32, CodepointInfo> = HashMap::new();
        let mut i: usize = 0;
        while i < codepoints.len()
            invariant
                i <= codepoints@.len(),
                map@ == info_map(codepoints@.take(i as int)),
            decreases codepoints@.len() - i,
        {
            let (c, info) = codepoints[i];
            map.insert(c, info);
            proof {
                assert(codepoints@.take(i + 1).drop_last() =~= codepoints@.take(i as int));
            }
            i = i + 1;
        }
        proof {
            assert(codepoints@.take(codepoints@.len() as int) =~= codepoints@);
        }
        let mut data: Vec<u64> = Vec::new();
        let mut j: usize = 0;
        while j < size
            invariant
                j <= size,
                data@ == Seq::new(j as nat, |q: int| 0u64),
            decreases size - j,
        {
            data.push(0);
            proof {
                assert(data@ =~= Seq::new((j + 1) as nat, |q: int| 0u64));
            }
            j = j + 1;
        }
        BloomFilterBuilder { codepoints: map, params, data }
    }

    /// Records that `a` and `b` occur together `count` times: when both are known and the count
    /// reaches the larger of their median pair counts, each slot probed for the pair (smaller
    /// code point first) takes the larger of what it held and `count`.
    pub fn insert_pairing(&mut self, a: u32, b: u32, count: u64)
        requires
            old(self).well_formed(),
        ensures
            final(self).well_formed(),
            final(self).infos() == old(self).infos(),
            final(self).params() == old(self).params(),
            final(self).slots() == if old(self).infos().contains_key(a) && old(self).infos().contains_key(b) && count >= (
                if old(self).infos()[a].edge_median >= old(self).infos()[b].edge_median {
                    old(self).infos()[a].edge_median
                } else {
                    old(self).infos()[b].edge_median
                }) {
                raised(old(self).slots(), old(self).params(), ordered_pair(a, b), count, old(self).params().hash_count as nat)
            } else {
                old(self).slots()
            },
    {
        let ac = match self.codepoints.get(&a) {
            Some(x) => *x,
            None => return,
        };
        let bc = match self.codepoints.get(&b) {
            Some(x) => *x,
            None => return,
        };
        let median = if ac.edge_median >= bc.edge_median { ac.edge_median } else { bc.edge_median };
        if count < median {
            return;
        }
        let value = if a <= b { (a, b) } else { (b, a) };
        let probes = self.params.do_hash(value);
        let ghost d0 = self.data@;
        let ghost p = self.params;
        let mut k: usize = 0;
        proof {
            assert(raised(d0, p, value, count, 0) =~= d0);
        }
        while k < probes.len()
            invariant
                k <= probes@.len(),
                probes@.len() == p.hash_count,
                forall|q: int| 0 <= q < p.hash_count ==> #[trigger] probes@[q] == p.probe(value, q as nat),
                forall|q: int| 0 <= q < p.hash_count ==> #[trigger] probes@[q] <= p.mask,
                p.valid(),
                d0.len() == p.size,
                p == self.params,
                self.data@.len() == p.size,
                self.codepoints@ == old(self).codepoints@,
                self.data@ == raised(d0, p, value, count, k as nat),
            decreases probes@.len() - k,
        {
            let slot = probes[k];
            let held = self.data[slot];
            if held < count {
                self.data.set(slot, count);
            }
            proof {
                let want = raised(d0, p, value, count, (k + 1) as nat);
                assert forall|j: int| 0 <= j < d0.len() implies self.data@[j] == want[j] by {
                    if j == slot {
                        assert(p.probe(value, k as nat) == j);
                    } else {
                        if exists|q: nat| q < k + 1 && #[trigger] p.probe(value, q) == j {
                            let q = choose|q: nat| q < k + 1 && #[trigger] p.probe(value, q) == j;
                            assert(q != k);
                        }
                    }
                }
                assert(self.data@ =~= want);
            }
            k = k + 1;
        }
    }

    /// The smallest and the largest count over all slots (`u64::MAX` and 0 for no slot).
    pub fn count_range(&self) -> (r: (u64, u64))
        ensures
            forall|j: int| 0 <= j < self.slots().len() ==> r.0 <= #[trigger] self.slots()[j] <= r.1,
            self.slots().len() > 0 ==> (exists|j: int| 0 <= j < self.slots().len() && self.slots()[j] == r.0)
                && (exists|j: int| 0 <= j < self.slots().len() && self.slots()[j] == r.1),
            self.slots().len() == 0 ==> r == (u64::MAX, 0u64),
    {
        let mut min: u64 = u64::MAX;
        let mut max: u64 = 0;
        let mut i: usize = 0;
        while i < self.data.len()
            invariant
                i <= self.data@.len(),
                forall|j: int| 0 <= j < i ==> min <= #[trigger] self.data@[j] <= max,
                i > 0 ==> (exists|j: int| 0 <= j < i && self.data@[j] == min) && (exists|j: int| 0 <= j < i && self.data@[j] == max),
                i == 0 ==> min == u64::MAX && max == 0,
            decreases self.data@.len() - i,
        {
            let v = self.data[i];
            if i == 0 || v < min {
                min = v;
            }
            if i == 0 || v > max {
                max = v;
            }
            i = i + 1;
        }
        (min, max)
    }

    /// The parameters of the filter.
    pub fn filter_params(&self) -> (p: FilterParams)
        ensures
            p == self.params(),
    {
        self.params
    }

    /// The largest count seen in each slot, for the encoding into bytes.
    pub fn raw_counts(&self) -> (r: &Vec<u64>)
        ensures
            r@ == self.slots(),
    {
        &self.data
    }
}

/// A finished filter: what it knows of each code point, its parameters, the count that each
/// byte code stands for, its code points in increasing order, and its byte-coded slots.
pub struct AdjacencyBloomFilter {
    codepoints: HashMap<u32, CodepointInfo>,
    params: FilterParams,
    decode: Vec<u64>,
    glyphs: Vec<char>,
    data: Vec<u8>,
}

/// The parts of a filter fit together: valid parameters, a byte per slot, 256 byte codes, and
/// only character code points.
pub open spec fn filter_consistent(infos: Map<u32, CodepointInfo>, p: FilterParams, decode: Seq<u64>, data: Seq<u8>) -> bool {
    &&& p.valid()
    &&& data.len() == p.size
    &&& decode.len() == 256
    &&& forall|c: u32| #[trigger] infos.contains_key(c) ==> crate::text::is_scalar(c as int)
}

impl AdjacencyBloomFilter {
    #[verifier::type_invariant]
    closed spec fn wf(&self) -> bool {
        filter_consistent(self.codepoints@, self.params, self.decode@, self.data@)
    }

    /// What the filter knows of each code point.
    pub closed spec fn infos(&self) -> Map<u32, CodepointInfo> {
        self.codepoints@
    }

    /// The parameters.
    pub closed spec fn params(&self) -> FilterParams {
        self.params
    }

    /// The count that each byte code stands for.
    pub closed spec fn decode_view(&self) -> Seq<u64> {
        self.decode@
    }

    /// The byte-coded slots.
    pub closed spec fn data_view(&self) -> Seq<u8> {
        self.data@
    }

    /// The code points of the filter, in increasing order.
    pub closed spec fn glyphs_view(&self) -> Seq<char> {
        self.glyphs@
    }

    /// How often a code point occurs; 0 for an unknown one.
    pub open spec fn frequency(&self, ch: u32) -> u64 {
        if self.infos().contains_key(ch) { self.infos()[ch].count } else { 0 }
    }

    /// The estimated count of pages that hold both `a` and `b`: the frequency for `a == b`, 0
    /// unless both are known; else the count that the smallest probed byte stands for, capped
    /// at the larger pair maximum, and where it is not above the larger pair median, that
    /// median for two code points of one block and 0 otherwise.
    pub open spec fn pairing(&self, a: u32, b: u32) -> u64 {
        if a == b {
            self.frequency(a)
        } else if !self.infos().contains_key(a) || !self.infos().contains_key(b) {
            0
        } else {
            let ia = self.infos()[a];
            let ib = self.infos()[b];
            let m = min_probe(self.data_view(), self.params(), ordered_pair(a, b), self.params().hash_count as nat);
            let value = self.decode_view()[m as int];
            let median = if ia.edge_median >= ib.edge_median { ia.edge_median } else { ib.edge_median };
            let maximum = if ia.edge_maximum >= ib.edge_maximum { ia.edge_maximum } else { ib.edge_maximum };
            if value > maximum {
                maximum
            } else if value > median {
                value
            } else if ia.block_id == ib.block_id {
                median
            } else {
                0
            }
        }
    }

    /// Puts a filter together from what it knows of each code point (later pairs win), its
    /// parameters, the count of each byte code and its slots.
    pub fn from_parts(codepoints: Vec<(u32, CodepointInfo)>, params: FilterParams, decode: Vec<u64>, data: Vec<u8>) -> (f: Self)
        requires
            filter_consistent(info_map(codepoints@), params, decode@, data@),
        ensures
            f.infos() == info_map(codepoints@),
            f.params() == params,
            f.decode_view() == decode@,
            f.data_view() == data@,
            strictly_increasing(crate::fonts::char_codes(f.glyphs_view())),
            crate::fonts::char_codes(f.glyphs_view()).to_set() == f.infos().dom(),
    {
        let mut map: HashMap<u32, CodepointInfo> = HashMap::new();
        let mut keys: Vec<u32> = Vec::new();
        let mut i: usize = 0;
        while i < codepoints.len()
            invariant
                i <= codepoints@.len(),
                map@ == info_map(codepoints@.take(i as int)),
                keys@.to_set() == map@.dom(),
            decreases codepoints@.len() - i,
        {
            let (c, info) = codepoints[i];
            let ghost old_keys = keys@;
            let ghost old_map = map@;
            map.insert(c, info);
            keys.push(c);
            proof {
                assert(codepoints@.take(i + 1).drop_last() =~= codepoints@.take(i as int));
                crate::sort::lemma_push_to_set(old_keys, c);
                assert(keys@ == old_keys.push(c));
                assert(map@.dom() =~= old_map.dom().insert(c));
                assert(keys@.to_set() =~= map@.dom());
            }
            i = i + 1;
        }
        proof {
            assert(codepoints@.take(codepoints@.len() as int) =~= codepoints@);
        }
        let sorted = sort_distinct(&keys);
        let mut glyphs: Vec<char> = Vec::new();
        let mut j: usize = 0;
        while j < sorted.len()
            invariant
                j <= sorted@.len(),
                strictly_increasing(sorted@),
                sorted@.to_set() == map@.dom(),
                map@ == info_map(codepoints@),
                filter_consistent(info_map(codepoints@), params, decode@, data@),
                crate::fonts::char_codes(glyphs@) == sorted@.take(j as int),
            decreases sorted@.len() - j,
        {
            let v = sorted[j];
            proof {
                assert(sorted@.to_set().contains(v));
            }
            let c = core::char::from_u32(v).unwrap();
            let ghost og = glyphs@;
            glyphs.push(c);
            proof {
                assert(glyphs@ == og.push(c));
                assert(crate::fonts::char_codes(glyphs@) =~= crate::fonts::char_codes(og).push(v));
                assert(sorted@.take(j + 1) =~= sorted@.take(j as int).push(v));
                assert(crate::fonts::char_codes(glyphs@) =~= sorted@.take(j + 1));
            }
            j = j + 1;
        }
        proof {
            assert(sorted@.take(j as int) =~= sorted@);
        }
        AdjacencyBloomFilter { codepoints: map, params, decode, glyphs, data }
    }

    /// The code points of the filter, in increasing order.
    pub fn glyph_list(&self) -> (g: &[char])
        ensures
            g@ == self.glyphs_view(),
    {
        self.glyphs.as_slice()
    }

    /// How often a code point occurs; 0 for an unknown one.
    pub fn get_character_frequency(&self, ch: u32) -> (r: u64)
        ensures
            r == self.frequency(ch),
    {
        match self.codepoints.get(&ch) {
            Some(x) => x.count,
            None => 0,
        }
    }

    /// The estimated count of pages that hold both `a` and `b` (see `pairing`).
    pub fn get_pairing(&self, a: u32, b: u32) -> (r: u64)
        ensures
            r == self.pairing(a, b),
    {
        proof { use_type_invariant(self); }
        if a == b {
            return self.get_character_frequency(a);
        }
        let ac = match self.codepoints.get(&a) {
            Some(x) => *x,
            None => return 0,
        };
        let bc = match self.codepoints.get(&b) {
            Some(x) => *x,
            None => return 0,
        };
        let value = if a <= b { (a, b) } else { (b, a) };
        let probes = self.params.do_hash(value);
        let mut min: u8 = 255;
        let mut k: usize = 0;
        while k < probes.len()
            invariant
                k <= probes@.len(),
                probes@.len() == self.params.hash_count,
                forall|q: int| 0 <= q < self.params.hash_count ==> #[trigger] probes@[q] == self.params.probe(value, q as nat),
                forall|q: int| 0 <= q < self.params.hash_count ==> #[trigger] probes@[q] <= self.params.mask,
                filter_consistent(self.codepoints@, self.params, self.decode@, self.data@),
                min == min_probe(self.data@, self.params, value, k as nat),
            decreases probes@.len() - k,
        {
            let here = self.data[probes[k]];
            if here < min {
                min = here;
            }
            k = k + 1;
        }
        let median = if ac.edge_median >= bc.edge_median { ac.edge_median } else { bc.edge_median };
        let maximum = if ac.edge_maximum >= bc.edge_maximum { ac.edge_maximum } else { bc.edge_maximum };
        let v = self.decode[min as usize];
        if v > maximum {
            maximum
        } else if v > median {
            v
        } else if ac.block_id == bc.block_id {
            median
        } else {
            0
        }
    }
}

} // verus!
