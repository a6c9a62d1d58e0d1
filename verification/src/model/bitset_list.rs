//! Lists of text samples, each kept as the compressed set of the characters it uses, grouped in
//! named sections.
use vstd::prelude::*;
use std::sync::Arc;
use vstd::multiset::Multiset;
use crate::character_set::{CharacterSet, CompressedCharacterSet, canonical, decodable, decoded_set};
use crate::text::{is_scalar, char_code};

verus! {

/// One more than the largest Unicode scalar value: the size of the per-code-point tables.
pub const CODEPOINT_LIMIT: usize = 0x110000;

/// Calls `Arc::clone`: the clone points to the same value, as std documents.
#[verifier::external_body]
fn arc_clone<T>(a: &Arc<T>) -> (r: Arc<T>)
    ensures
        r == *a,
{
    a.clone()
}

/// The marks table as a sample starts: generation 255 clears it before it is used.
pub open spec fn marks_at_start(marks: Seq<u8>, generation: u8) -> Seq<u8> {
    if generation == u8::MAX {
        Seq::new(marks.len(), |i: int| 0u8)
    } else {
        marks
    }
}

/// The generation that follows `generation`.
pub open spec fn next_generation(generation: u8) -> u8 {
    if generation == u8::MAX { 0 } else { (generation + 1) as u8 }
}

/// `s` uses the code point `x`.
pub open spec fn uses(s: Seq<char>, x: int) -> bool {
    exists|k: int| 0 <= k < s.len() && s[k] as int == x
}

/// The code points that a sample records: those that the text uses, that the marks table does
/// not already hold with the sample's generation, and that are not filtered out.
pub open spec fn sample_chars(s: Seq<char>, marks: Seq<u8>, filtered: Seq<bool>, generation: u8) -> Set<u32> {
    Set::new(|x: u32| uses(s, x as int) && marks[x as int] != generation && !filtered[x as int])
}

/// The marks table after a sample: every code point that the text uses holds the generation.
pub open spec fn mark_chars(marks: Seq<u8>, s: Seq<char>, generation: u8) -> Seq<u8> {
    Seq::new(marks.len(), |i: int| if uses(s, i) { generation } else { marks[i] })
}

/// `d` is the compressed form of the set `set`.
pub open spec fn compresses(d: Seq<u32>, set: Set<u32>) -> bool {
    canonical(d) && decodable(d) && decoded_set(d) == set
}

/// Collects the text samples of one section.
pub struct BitsetSectionBuilder {
    source: String,
    compressed: Vec<CompressedCharacterSet>,
    used_cd_idx: u8,
    used_cd: Vec<u8>,
    filtered: Vec<bool>,
}

impl BitsetSectionBuilder {
    pub closed spec fn wf(&self) -> bool {
        &&& self.used_cd@.len() == CODEPOINT_LIMIT
        &&& self.filtered@.len() == CODEPOINT_LIMIT
    }

    /// The name of the section being built.
    pub closed spec fn source_view(&self) -> Seq<char> {
        self.source@
    }

    /// The samples pushed so far, as delta-encoded sets.
    pub closed spec fn samples(&self) -> Seq<Seq<u32>> {
        self.compressed@.map_values(|c: CompressedCharacterSet| c@)
    }

    /// The generation that the next sample marks code points with.
    pub closed spec fn generation(&self) -> u8 {
        self.used_cd_idx
    }

    /// For each code point, the generation of the last sample that used it.
    pub closed spec fn marks(&self) -> Seq<u8> {
        self.used_cd@
    }

    /// For each code point, whether it is kept out of the samples.
    pub closed spec fn filtered_marks(&self) -> Seq<bool> {
        self.filtered@
    }

    /// Starts an empty section named `source`; no code point is filtered out yet.
    pub fn new(source: &str) -> (b: Self)
        ensures
            b.wf(),
            b.source_view() == source@,
            b.samples() == Seq::<Seq<u32>>::empty(),
            b.generation() == 0,
            forall|i: int| 0 <= i < CODEPOINT_LIMIT ==> b.marks()[i] == 0 && !b.filtered_marks()[i],
    {
        let mut used_cd: Vec<u8> = Vec::new();
        let mut filtered: Vec<bool> = Vec::new();
        let mut i: usize = 0;
        while i < CODEPOINT_LIMIT
            invariant
                i <= CODEPOINT_LIMIT,
                used_cd@.len() == i,
                filtered@.len() == i,
                forall|k: int| 0 <= k < i ==> used_cd@[k] == 0 && !filtered@[k],
            decreases CODEPOINT_LIMIT - i,
        {
            used_cd.push(0);
            filtered.push(false);
            i = i + 1;
        }
        let b = BitsetSectionBuilder {
            source: source.to_owned(),
            compressed: Vec::new(),
            used_cd_idx: 0,
            used_cd,
            filtered,
        };
        assert(b.samples() =~= Seq::<Seq<u32>>::empty());
        b
    }

    /// Filters out every code point that is not a Unicode scalar value or for which `filter`
    /// returns `false`; code points already filtered out stay so.
    pub fn filter_chars(&mut self, filter: impl Fn(char) -> bool)
        requires
            old(self).wf(),
            forall|c: char| call_requires(filter, (c,)),
        ensures
            final(self).wf(),
            final(self).source_view() == old(self).source_view(),
            final(self).samples() == old(self).samples(),
            final(self).generation() == old(self).generation(),
            final(self).marks() == old(self).marks(),
            final(self).filtered_marks().len() == CODEPOINT_LIMIT,
            forall|i: int| 0 <= i < CODEPOINT_LIMIT ==> {
                let was = old(self).filtered_marks()[i];
                let now = #[trigger] final(self).filtered_marks()[i];
                &&& was ==> now
                &&& !now ==> is_scalar(i)
            },
            forall|c: char| is_scalar(c as int) ==> {
                let was = old(self).filtered_marks()[c as int];
                let now = #[trigger] final(self).filtered_marks()[c as int];
                &&& (now && !was) ==> call_ensures(filter, (c,), false)
                &&& !now ==> call_ensures(filter, (c,), true)
            },
    {
        let ghost start = self.filtered@;
        let mut i: usize = 0;
        while i < CODEPOINT_LIMIT
            invariant
                i <= CODEPOINT_LIMIT,
                self.wf(),
                self.source@ == old(self).source@,
                self.compressed@ == old(self).compressed@,
                self.used_cd_idx == old(self).used_cd_idx,
                self.used_cd@ == old(self).used_cd@,
                start == old(self).filtered@,
                forall|c: char| call_requires(filter, (c,)),
                forall|k: int| i <= k < CODEPOINT_LIMIT ==> #[trigger] self.filtered@[k] == start[k],
                start.len() == CODEPOINT_LIMIT,
                forall|k: int| 0 <= k < i ==> {
                    let was = start[k];
                    let now = #[trigger] self.filtered@[k];
                    &&& was ==> now
                    &&& !now ==> is_scalar(k)
                },
                forall|c: char| 0 <= (c as int) < i && is_scalar(c as int) ==> {
                    let was = start[c as int];
                    let now = #[trigger] self.filtered@[c as int];
                    &&& (now && !was) ==> call_ensures(filter, (c,), false)
                    &&& !now ==> call_ensures(filter, (c,), true)
                },
            decreases CODEPOINT_LIMIT - i,
        {
            let ghost before = self.filtered@;
            match core::char::from_u32(i as u32) {
                Some(ch) => {
                    let keep = filter(ch);
                    let code = char_code(ch);
                    assert(code as int == i as int);
                    if !keep {
                        self.filtered[i] = true;
                    }
                    proof {
                        assert forall|c: char| 0 <= (c as int) < i + 1 && is_scalar(c as int) implies {
                            let was = start[c as int];
                            let now = #[trigger] self.filtered@[c as int];
                            &&& (now && !was) ==> call_ensures(filter, (c,), false)
                            &&& !now ==> call_ensures(filter, (c,), true)
                        } by {
                            if (c as int) == i as int {
                                assert(c == ch);
                            } else {
                                assert(self.filtered@[c as int] == before[c as int]);
                            }
                        }
                    }
                },
                None => {
                    self.filtered[i] = true;
                    proof {
                        assert forall|c: char| 0 <= (c as int) < i + 1 && is_scalar(c as int) implies {
                            let was = start[c as int];
                            let now = #[trigger] self.filtered@[c as int];
                            &&& (now && !was) ==> call_ensures(filter, (c,), false)
                            &&& !now ==> call_ensures(filter, (c,), true)
                        } by {
                            assert((c as int) != i as int);
                            assert(self.filtered@[c as int] == before[c as int]);
                        }
                    }
                },
            }
            i = i + 1;
        }
    }

    /// Records the code points that `text` uses, as one more sample.
    ///
    /// The marks table keeps a code point from being recorded twice in one sample; a code point
    /// whose mark already equals the sample's generation is not recorded.
    pub fn push_sample(&mut self, text: &str)
        requires
            old(self).wf(),
        ensures
            final(self).wf(),
            final(self).source_view() == old(self).source_view(),
            final(self).filtered_marks() == old(self).filtered_marks(),
            final(self).generation() == next_generation(old(self).generation()),
            final(self).marks() == mark_chars(
                marks_at_start(old(self).marks(), old(self).generation()), text@, old(self).generation()),
            final(self).samples().len() == old(self).samples().len() + 1,
            final(self).samples().drop_last() == old(self).samples(),
            compresses(final(self).samples().last(), sample_chars(text@,
                marks_at_start(old(self).marks(), old(self).generation()),
                old(self).filtered_marks(), old(self).generation())),
    {
        let idx = self.used_cd_idx;
        if idx == u8::MAX {
            self.used_cd_idx = 0;
            let mut i: usize = 0;
            while i < CODEPOINT_LIMIT
                invariant
                    i <= CODEPOINT_LIMIT,
                    self.used_cd@.len() == CODEPOINT_LIMIT,
                    forall|k: int| 0 <= k < i ==> self.used_cd@[k] == 0,
                    self.filtered@ == old(self).filtered@,
                    self.source@ == old(self).source@,
                    self.compressed@ == old(self).compressed@,
                    self.used_cd_idx == 0,
                decreases CODEPOINT_LIMIT - i,
            {
                self.used_cd[i] = 0;
                i = i + 1;
            }
        } else {
            self.used_cd_idx = self.used_cd_idx + 1;
        }
        let ghost marks0 = self.used_cd@;
        assert(marks0 =~= marks_at_start(old(self).used_cd@, idx));
        let ghost filtered = self.filtered@;
        let mut bitset = CharacterSet::new();
        proof {
            assert(mark_chars(marks0, text@.take(0), idx) =~= marks0);
            assert(bitset@ =~= sample_chars(text@.take(0), marks0, filtered, idx));
        }
        for ch in it: text.chars()
            invariant
                it.seq() == text@,
                self.used_cd@.len() == CODEPOINT_LIMIT,
                self.filtered@ == filtered,
                filtered.len() == CODEPOINT_LIMIT,
                marks0.len() == CODEPOINT_LIMIT,
                self.source@ == old(self).source@,
                self.compressed@ == old(self).compressed@,
                self.used_cd_idx == next_generation(idx),
                self.used_cd@ == mark_chars(marks0, text@.take(it.index()), idx),
                bitset@ == sample_chars(text@.take(it.index()), marks0, filtered, idx),
        {
            let ghost k = it.index();
            let ghost prev = text@.take(k);
            let ghost next = text@.take(k + 1);
            assert(next == prev.push(ch));
            let c = char_code(ch);
            if (c as usize) < CODEPOINT_LIMIT {
                let cu = c as usize;
                assert(next[k] == ch);
                if self.used_cd[cu] != idx {
                    proof {
                        assert(!uses(prev, cu as int)) by {
                            if uses(prev, cu as int) {
                                assert(mark_chars(marks0, prev, idx)[cu as int] == idx);
                            }
                        }
                    }
                    self.used_cd[cu] = idx;
                    if !self.filtered[cu] {
                        bitset.insert(c);
                    }
                    proof {
                        assert(uses(next, cu as int)) by { assert(next[k] == ch); }
                        assert forall|i: int| 0 <= i < CODEPOINT_LIMIT implies uses(next, i) == (uses(prev, i) || i == cu as int) by {
                            if uses(next, i) {
                                let j = choose|j: int| 0 <= j < next.len() && next[j] as int == i;
                                if j < k { assert(prev[j] == next[j]); }
                            }
                            if uses(prev, i) {
                                let j = choose|j: int| 0 <= j < prev.len() && prev[j] as int == i;
                                assert(next[j] == prev[j]);
                            }
                        }
                        assert(self.used_cd@ =~= mark_chars(marks0, next, idx));
                        assert forall|x: u32| bitset@.contains(x) == sample_chars(next, marks0, filtered, idx).contains(x) by {
                            assert(uses(next, x as int) == (uses(prev, x as int) || x == c));
                        }
                        assert(bitset@ =~= sample_chars(next, marks0, filtered, idx));
                    }
                } else {
                    proof {
                        assert forall|i: int| 0 <= i < CODEPOINT_LIMIT implies uses(next, i) == (uses(prev, i) || i == cu as int) by {
                            if uses(next, i) {
                                let j = choose|j: int| 0 <= j < next.len() && next[j] as int == i;
                                if j < k { assert(prev[j] == next[j]); }
                            }
                            if uses(prev, i) {
                                let j = choose|j: int| 0 <= j < prev.len() && prev[j] as int == i;
                                assert(next[j] == prev[j]);
                            }
                            if i == cu as int { assert(next[k] == ch); }
                        }
                        assert(self.used_cd@ =~= mark_chars(marks0, next, idx));
                        assert forall|x: u32| bitset@.contains(x) == sample_chars(next, marks0, filtered, idx).contains(x) by {
                            assert(uses(next, x as int) == (uses(prev, x as int) || x == c));
                            if x == c && !uses(prev, x as int) {
                                assert(marks0[x as int] == idx);
                            }
                        }
                        assert(bitset@ =~= sample_chars(next, marks0, filtered, idx));
                    }
                }
            }
        }
        assert(text@.take(text@.len() as int) == text@);
        let c = bitset.compressed();
        self.compressed.push(c);
        proof {
            assert(self.samples().drop_last() =~= old(self).samples());
        }
    }
}

/// A finished section: its name and its samples.
#[derive(Clone)]
pub struct BitsetSection {
    source: String,
    compressed: Vec<CompressedCharacterSet>,
}

impl BitsetSection {
    pub closed spec fn source_view(&self) -> Seq<char> {
        self.source@
    }

    /// The samples, as delta-encoded sets.
    pub closed spec fn samples(&self) -> Seq<Seq<u32>> {
        self.compressed@.map_values(|c: CompressedCharacterSet| c@)
    }

    /// Makes a section from its parts.
    pub fn from_parts(source: String, compressed: Vec<CompressedCharacterSet>) -> (s: Self)
        ensures
            s.source_view() == source@,
            s.samples() == compressed@.map_values(|c: CompressedCharacterSet| c@),
    {
        BitsetSection { source, compressed }
    }

    /// The name of the section.
    pub fn source(&self) -> (s: &str)
        ensures
            s@ == self.source_view(),
    {
        self.source.as_str()
    }

    /// Number of samples in the section.
    pub fn len(&self) -> (n: usize)
        ensures
            n == self.samples().len(),
    {
        self.compressed.len()
    }

    /// The compressed samples.
    pub fn compressed_sets(&self) -> (c: &Vec<CompressedCharacterSet>)
        ensures
            c@.map_values(|c: CompressedCharacterSet| c@) == self.samples(),
    {
        &self.compressed
    }

    /// The sample at index `i`, decompressed.
    pub fn get(&self, i: usize) -> (s: CharacterSet)
        requires
            i < self.samples().len(),
        ensures
            s@ == decoded_set(self.samples()[i as int]),
    {
        CharacterSet::decompress(&self.compressed[i])
    }

    /// All samples, decompressed, in order.
    pub fn iter(&self) -> (v: Vec<CharacterSet>)
        ensures
            v@.len() == self.samples().len(),
            forall|i: int| 0 <= i < v@.len() ==> #[trigger] v@[i]@ == decoded_set(self.samples()[i]),
    {
        let mut v: Vec<CharacterSet> = Vec::new();
        let mut i: usize = 0;
        while i < self.compressed.len()
            invariant
                i <= self.samples().len(),
                self.samples().len() == self.compressed@.len(),
                v@.len() == i,
                forall|k: int| 0 <= k < i ==> #[trigger] v@[k]@ == decoded_set(self.samples()[k]),
            decreases self.compressed@.len() - i,
        {
            v.push(self.get(i));
            i = i + 1;
        }
        v
    }
}

/// The samples of a list of sections, in order: the samples of the first section, then those
/// of the second, and so on.
pub open spec fn all_samples(sections: Seq<Arc<BitsetSection>>) -> Seq<Seq<u32>>
    decreases sections.len(),
{
    if sections.len() == 0 {
        Seq::empty()
    } else {
        all_samples(sections.drop_last()) + sections.last().samples()
    }
}

/// The sections of `s` whose index leaves remainder `k` when divided by `count`, in order.
pub open spec fn round_robin<T>(s: Seq<T>, count: nat, k: nat) -> Seq<T>
    decreases s.len(),
{
    if s.len() == 0 {
        Seq::empty()
    } else if (s.len() - 1) % (count as int) == k as int {
        round_robin(s.drop_last(), count, k).push(s.last())
    } else {
        round_robin(s.drop_last(), count, k)
    }
}

/// A list of sections of samples.
#[derive(Clone)]
pub struct BitsetList {
    sections: Vec<Arc<BitsetSection>>,
}

impl View for BitsetList {
    type V = Seq<Arc<BitsetSection>>;

    closed spec fn view(&self) -> Seq<Arc<BitsetSection>> {
        self.sections@
    }
}

/// Finishes a list from its section builders, keeping each section's name and samples.
pub fn build(raw_sections: Vec<BitsetSectionBuilder>) -> (l: BitsetList)
    ensures
        l@.len() == raw_sections@.len(),
        forall|i: int| 0 <= i < l@.len() ==> {
            &&& (#[trigger] l@[i]).source_view() == raw_sections@[i].source_view()
            &&& l@[i].samples() == raw_sections@[i].samples()
        },
{
    let mut sections: Vec<Arc<BitsetSection>> = Vec::new();
    let ghost all = raw_sections@;
    for b in it: raw_sections.into_iter()
        invariant
            it.seq() == all,
            sections@.len() == it.index(),
            forall|i: int| 0 <= i < sections@.len() ==> {
                &&& (#[trigger] sections@[i]).source_view() == all[i].source_view()
                &&& sections@[i].samples() == all[i].samples()
            },
    {
        let section = BitsetSection { source: b.source, compressed: b.compressed };
        sections.push(Arc::new(section));
    }
    BitsetList { sections }
}

impl BitsetList {
    /// Makes a list from its sections.
    pub fn from_sections(sections: Vec<Arc<BitsetSection>>) -> (l: Self)
        ensures
            l@ == sections@,
    {
        BitsetList { sections }
    }

    /// Total number of samples in all sections.
    pub fn len(&self) -> (n: u64)
        requires
            all_samples(self@).len() <= u64::MAX,
        ensures
            n == all_samples(self@).len(),
    {
        let mut count: u64 = 0;
        let mut i: usize = 0;
        while i < self.sections.len()
            invariant
                i <= self@.len(),
                all_samples(self@).len() <= u64::MAX,
                count == all_samples(self@.take(i as int)).len(),
            decreases self@.len() - i,
        {
            proof {
                assert(self@.take(i + 1).drop_last() == self@.take(i as int));
                lemma_all_samples_prefix_len(self@, (i + 1) as nat);
                lemma_all_samples_prefix_bound(self@, (i + 1) as nat);
            }
            count = count + self.sections[i].len() as u64;
            i = i + 1;
        }
        assert(self@.take(self@.len() as int) == self@);
        count
    }

    /// The sections of the list.
    pub fn sections(&self) -> (s: &[Arc<BitsetSection>])
        ensures
            s@ == self@,
    {
        self.sections.as_slice()
    }

    /// The sections of the list, owned.
    pub fn take_sections(self) -> (s: Vec<Arc<BitsetSection>>)
        ensures
            s@ == self@,
    {
        self.sections
    }

    /// All samples of all sections, decompressed, in order.
    pub fn iter(&self) -> (v: Vec<CharacterSet>)
        ensures
            v@.len() == all_samples(self@).len(),
            forall|i: int| 0 <= i < v@.len() ==> #[trigger] v@[i]@ == decoded_set(all_samples(self@)[i]),
    {
        let mut v: Vec<CharacterSet> = Vec::new();
        let mut i: usize = 0;
        while i < self.sections.len()
            invariant
                i <= self@.len(),
                v@.len() == all_samples(self@.take(i as int)).len(),
                forall|k: int| 0 <= k < v@.len() ==> #[trigger] v@[k]@ == decoded_set(all_samples(self@.take(i as int))[k]),
            decreases self@.len() - i,
        {
            let section = &self.sections[i];
            let ghost before = all_samples(self@.take(i as int));
            proof {
                assert(self@.take(i + 1).drop_last() == self@.take(i as int));
                assert(all_samples(self@.take(i + 1)) == before + section.samples());
            }
            let mut j: usize = 0;
            while j < section.len()
                invariant
                    j <= section.samples().len(),
                    v@.len() == before.len() + j,
                    forall|k: int| 0 <= k < v@.len() ==> #[trigger] v@[k]@ == decoded_set((before + section.samples())[k]),
                decreases section.samples().len() - j,
            {
                v.push(section.get(j));
                j = j + 1;
            }
            i = i + 1;
        }
        assert(self@.take(self@.len() as int) == self@);
        v
    }
}

impl BitsetList {
    /// Splits the list into `count` lists, dealing the sections out in turn: section `i` goes to
    /// list `i % count`, and each list keeps its sections in the order they had.
    pub fn split(&self, count: usize) -> (lists: Vec<BitsetList>)
        requires
            count > 0,
        ensures
            lists@.len() == count,
            forall|k: int| 0 <= k < count ==> (#[trigger] lists@[k])@ == round_robin(self@, count as nat, k as nat),
    {
        let mut parts: Vec<Vec<Arc<BitsetSection>>> = Vec::new();
        let mut k: usize = 0;
        while k < count
            invariant
                k <= count,
                parts@.len() == k,
                forall|j: int| 0 <= j < k ==> (#[trigger] parts@[j])@ == Seq::<Arc<BitsetSection>>::empty(),
            decreases count - k,
        {
            parts.push(Vec::new());
            k = k + 1;
        }
        let mut i: usize = 0;
        while i < self.sections.len()
            invariant
                count > 0,
                i <= self@.len(),
                parts@.len() == count,
                forall|j: int| 0 <= j < count ==> (#[trigger] parts@[j])@ == round_robin(self@.take(i as int), count as nat, j as nat),
            decreases self@.len() - i,
        {
            let ghost before = parts@;
            let target = i % count;
            let section = arc_clone(&self.sections[i]);
            parts[target].push(section);
            proof {
                let t = self@.take(i + 1);
                assert(t.drop_last() == self@.take(i as int));
                assert(t.last() == self@[i as int]);
                assert forall|j: int| 0 <= j < count implies (#[trigger] parts@[j])@ == round_robin(t, count as nat, j as nat) by {
                    if j != target {
                        assert(parts@[j] == before[j]);
                    }
                }
            }
            i = i + 1;
        }
        assert(self@.take(self@.len() as int) == self@);
        let mut lists: Vec<BitsetList> = Vec::new();
        let ghost all = parts@;
        for part in it: parts.into_iter()
            invariant
                it.seq() == all,
                all.len() == count,
                lists@.len() == it.index(),
                forall|j: int| 0 <= j < count ==> (#[trigger] all[j])@ == round_robin(self@, count as nat, j as nat),
                forall|j: int| 0 <= j < lists@.len() ==> (#[trigger] lists@[j])@ == all[j]@,
        {
            lists.push(BitsetList { sections: part });
        }
        lists
    }
}

proof fn lemma_all_samples_prefix_bound(s: Seq<Arc<BitsetSection>>, n: nat)
    requires
        n <= s.len(),
    ensures
        all_samples(s.take(n as int)).len() <= all_samples(s).len(),
    decreases s.len() - n,
{
    if n < s.len() {
        lemma_all_samples_prefix_bound(s, n + 1);
        lemma_all_samples_prefix_len(s, n + 1);
    } else {
        assert(s.take(n as int) == s);
    }
}

proof fn lemma_all_samples_prefix_len(s: Seq<Arc<BitsetSection>>, n: nat)
    requires
        1 <= n <= s.len(),
    ensures
        all_samples(s.take(n as int)).len() == all_samples(s.take(n - 1)).len() + s[n - 1].samples().len(),
{
    assert(s.take(n as int).drop_last() == s.take(n - 1));
}

/// The sections dealt to the lists `0 .. k` of a split into `count` lists, counted with
/// multiplicity.
pub open spec fn dealt<T>(s: Seq<T>, count: nat, k: nat) -> Multiset<T>
    decreases k,
{
    if k == 0 {
        Multiset::empty()
    } else {
        dealt(s, count, (k - 1) as nat).add(round_robin(s, count, (k - 1) as nat).to_multiset())
    }
}

/// Dealing one more section adds it to exactly one list: the list `(len - 1) % count`.
proof fn lemma_dealt_push<T>(s: Seq<T>, x: T, count: nat, k: nat)
    requires
        count > 0,
        k <= count,
    ensures
        dealt(s.push(x), count, k) == if (s.len() as int) % (count as int) < k {
            dealt(s, count, k).insert(x)
        } else {
            dealt(s, count, k)
        },
    decreases k,
{
    broadcast use vstd::seq_lib::group_to_multiset_ensures, vstd::multiset::group_multiset_axioms;
    if k > 0 {
        lemma_dealt_push(s, x, count, (k - 1) as nat);
        let t = s.push(x);
        assert(t.drop_last() =~= s);
        let j = (k - 1) as nat;
        if (s.len() as int) % (count as int) == j as int {
            assert(round_robin(t, count, j) == round_robin(s, count, j).push(x));
            assert(dealt(t, count, k) =~= dealt(s, count, k).insert(x));
        } else {
            assert(round_robin(t, count, j) == round_robin(s, count, j));
            if (s.len() as int) % (count as int) < k {
                assert(dealt(t, count, k) =~= dealt(s, count, k).insert(x));
            } else {
                assert(dealt(t, count, k) =~= dealt(s, count, k));
            }
        }
    }
}

/// A split loses no section and repeats none: taken together, the `count` lists hold each
/// section of the list exactly as many times as the list does.
pub proof fn law_split_partitions<T>(s: Seq<T>, count: nat)
    requires
        count > 0,
    ensures
        dealt(s, count, count) == s.to_multiset(),
    decreases s.len(),
{
    broadcast use vstd::seq_lib::group_to_multiset_ensures, vstd::multiset::group_multiset_axioms;
    if s.len() == 0 {
        assert forall|k: nat| k <= count implies #[trigger] dealt(s, count, k) =~= Multiset::<T>::empty() by {
            lemma_dealt_empty(s, count, k);
        }
        assert(s.to_multiset() =~= Multiset::<T>::empty());
    } else {
        let p = s.drop_last();
        law_split_partitions(p, count);
        lemma_dealt_push(p, s.last(), count, count);
        assert(p.push(s.last()) =~= s);
    }
}

proof fn lemma_dealt_empty<T>(s: Seq<T>, count: nat, k: nat)
    requires
        s.len() == 0,
    ensures
        dealt(s, count, k) =~= Multiset::<T>::empty(),
    decreases k,
{
    broadcast use vstd::seq_lib::group_to_multiset_ensures, vstd::multiset::group_multiset_axioms;
    if k > 0 {
        lemma_dealt_empty(s, count, (k - 1) as nat);
        assert(round_robin(s, count, (k - 1) as nat) =~= Seq::<T>::empty());
        assert(round_robin(s, count, (k - 1) as nat).to_multiset() =~= Multiset::<T>::empty());
    }
}

} // verus!
