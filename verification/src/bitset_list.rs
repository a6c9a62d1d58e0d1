//! An earlier form of the sample list: each sample is a Roaring bitmap over indices into a table
//! of the code points seen, serialized into one byte buffer per section.
use vstd::prelude::*;
use std::collections::HashMap;
use crate::roaring_bitmap::{roaring_contents, roaring_new, roaring_insert, roaring_serialize_over,
    roaring_bytes, overwrite_start};
use crate::model::bitset_list::{CODEPOINT_LIMIT, uses};
use crate::text::{char_code, is_scalar};

verus! {

broadcast use vstd::std_specs::hash::group_hash_axioms;

/// Collects samples for one section.
pub struct BitsetListBuilder {
    codepoint_list: Vec<u32>,
    glyph_mapping: HashMap<u32, u32>,
    index: Vec<usize>,
    data: Vec<u8>,
    used_cd_idx: u16,
    used_cd: Vec<u16>,
}

/// The generation that follows `generation`.
pub open spec fn next_generation16(generation: u16) -> u16 {
    if generation == u16::MAX { 0 } else { (generation + 1) as u16 }
}

/// The marks table as a sample starts: generation `u16::MAX` clears it before it is used.
pub open spec fn marks_at_start16(marks: Seq<u16>, generation: u16) -> Seq<u16> {
    if generation == u16::MAX {
        Seq::new(marks.len(), |i: int| 0u16)
    } else {
        marks
    }
}

/// The marks table after a sample: every code point that the text uses holds the generation.
pub open spec fn mark_chars16(marks: Seq<u16>, s: Seq<char>, generation: u16) -> Seq<u16> {
    Seq::new(marks.len(), |i: int| if uses(s, i) { generation } else { marks[i] })
}

/// The codes of the characters of `s` whose decision in `d` (one per character) is `true`, in
/// order.
pub open spec fn kept_codes(s: Seq<char>, d: Seq<bool>) -> Seq<u32>
    decreases s.len(),
{
    if s.len() == 0 {
        Seq::empty()
    } else {
        let rest = kept_codes(s.drop_last(), d.drop_last());
        if d.last() { rest.push(s.last() as u32) } else { rest }
    }
}

/// `list` followed by each code of `codes` that it does not hold yet, in order of first
/// appearance.
pub open spec fn appended(list: Seq<u32>, codes: Seq<u32>) -> Seq<u32>
    decreases codes.len(),
{
    if codes.len() == 0 {
        list
    } else {
        let prev = appended(list, codes.drop_last());
        if prev.contains(codes.last()) { prev } else { prev.push(codes.last()) }
    }
}

/// The positions in `list` of the code points that `codes` holds.
pub open spec fn positions_of(list: Seq<u32>, codes: Seq<u32>) -> Set<u32> {
    Set::new(|i: u32| (i as int) < list.len() && codes.contains(list[i as int]))
}

/// `s` extended by one character uses exactly what `s` uses and that character's code.
pub proof fn lemma_uses_push(s: Seq<char>, ch: char)
    ensures
        forall|i: int| #[trigger] uses(s.push(ch), i) == (uses(s, i) || i == ch as int),
{
    let t = s.push(ch);
    assert forall|i: int| #[trigger] uses(t, i) == (uses(s, i) || i == ch as int) by {
        if uses(t, i) {
            let j = choose|j: int| 0 <= j < t.len() && t[j] as int == i;
            if j < s.len() {
                assert(s[j] == t[j]);
            }
        }
        if uses(s, i) {
            let j = choose|j: int| 0 <= j < s.len() && s[j] as int == i;
            assert(t[j] == s[j]);
        }
        if i == ch as int {
            assert(t[s.len() as int] == ch);
        }
    }
}

impl BitsetListBuilder {
    /// The code points seen so far, in order of first appearance.
    pub closed spec fn codepoints(&self) -> Seq<u32> { self.codepoint_list@ }
    /// The index of each code point seen.
    pub closed spec fn mapping(&self) -> Map<u32, u32> { self.glyph_mapping@ }
    /// Where each sample starts in the data buffer.
    pub closed spec fn starts(&self) -> Seq<usize> { self.index@ }
    /// The serialized samples.
    pub closed spec fn data_view(&self) -> Seq<u8> { self.data@ }
    pub closed spec fn generation(&self) -> u16 { self.used_cd_idx }
    pub closed spec fn marks(&self) -> Seq<u16> { self.used_cd@ }

    pub closed spec fn wf(&self) -> bool {
        &&& self.used_cd@.len() == CODEPOINT_LIMIT
        &&& self.codepoint_list@.no_duplicates()
        &&& self.glyph_mapping@.dom() == self.codepoint_list@.to_set()
        &&& forall|i: int| 0 <= i < self.codepoint_list@.len()
            ==> #[trigger] self.glyph_mapping@[self.codepoint_list@[i]] == i
        &&& forall|i: int| 0 <= i < self.codepoint_list@.len() ==> is_scalar(#[trigger] self.codepoint_list@[i] as int)
    }

    /// An empty builder.
    pub fn new() -> (b: Self)
        ensures
            b.wf(),
            b.codepoints() == Seq::<u32>::empty(),
            b.starts() == Seq::<usize>::empty(),
            b.data_view() == Seq::<u8>::empty(),
            b.generation() == 0,
            forall|i: int| 0 <= i < CODEPOINT_LIMIT ==> b.marks()[i] == 0,
    {
        let mut used_cd: Vec<u16> = Vec::new();
        let mut i: usize = 0;
        while i < CODEPOINT_LIMIT
            invariant
                i <= CODEPOINT_LIMIT,
                used_cd@.len() == i,
                forall|k: int| 0 <= k < i ==> used_cd@[k] == 0,
            decreases CODEPOINT_LIMIT - i,
        {
            used_cd.push(0);
            i = i + 1;
        }
        let b = BitsetListBuilder {
            codepoint_list: Vec::new(),
            glyph_mapping: HashMap::new(),
            index: Vec::new(),
            data: Vec::new(),
            used_cd_idx: 0,
            used_cd,
        };
        assert(b.codepoint_list@.to_set() =~= Set::<u32>::empty());
        b
    }

    /// The index of the code point `ch`, giving the next index to a code point seen for the first
    /// time.
    fn map_ch(&mut self, ch: u32) -> (idx: u32)
        requires
            old(self).wf(),
            is_scalar(ch as int),
        ensures
            final(self).wf(),
            final(self).starts() == old(self).starts(),
            final(self).data_view() == old(self).data_view(),
            final(self).generation() == old(self).generation(),
            final(self).marks() == old(self).marks(),
            old(self).mapping().contains_key(ch) ==> idx == old(self).mapping()[ch]
                && final(self).codepoints() == old(self).codepoints(),
            !old(self).mapping().contains_key(ch) ==> idx == old(self).codepoints().len()
                && final(self).codepoints() == old(self).codepoints().push(ch),
            final(self).mapping().contains_key(ch) && final(self).mapping()[ch] == idx,
    {
        match self.glyph_mapping.get(&ch) {
            Some(idx) => *idx,
            None => {
                proof {
                    assert forall|i: int| 0 <= i < self.codepoint_list@.len() implies (#[trigger] self.codepoint_list@[i]) < 0x10FFFF + 1 by {
                        assert(is_scalar(self.codepoint_list@[i] as int));
                    }
                    crate::sort::lemma_distinct_below(self.codepoint_list@, 0x110000);
                    self.codepoint_list@.unique_seq_to_set();
                }
                let idx = self.codepoint_list.len() as u32;
                let ghost before = self.codepoint_list@;
                self.glyph_mapping.insert(ch, idx);
                self.codepoint_list.push(ch);
                proof {
                    assert(!before.contains(ch)) by {
                        if before.contains(ch) {
                            let k = choose|k: int| 0 <= k < before.len() && before[k] == ch;
                            assert(before.to_set().contains(ch));
                        }
                    }
                    crate::sort::lemma_push_to_set(before, ch);
                    assert forall|i: int| 0 <= i < self.codepoint_list@.len()
                        implies #[trigger] self.glyph_mapping@[self.codepoint_list@[i]] == i by {
                        if i < before.len() {
                            assert(self.codepoint_list@[i] == before[i]);
                            assert(before[i] != ch);
                        }
                    }
                }
                idx
            },
        }
    }

    /// Records, as one more sample, the set of the indices of the characters of `text` that
    /// `filter` keeps; a character kept for the first time gets the next index.
    ///
    /// The sample's bitmap is serialized at the start of the data buffer (over what is there),
    /// while its recorded start is the buffer's length before the call.
    pub fn push_sample(&mut self, text: &str, filter: impl Fn(char) -> bool)
        requires
            old(self).wf(),
            forall|c: char| call_requires(filter, (c,)),
        ensures
            final(self).wf(),
            final(self).generation() == next_generation16(old(self).generation()),
            final(self).marks() == mark_chars16(
                marks_at_start16(old(self).marks(), old(self).generation()), text@, old(self).generation()),
            final(self).starts() == old(self).starts().push(old(self).data_view().len() as usize),
            exists|d: Seq<bool>| {
                &&& d.len() == text@.len()
                &&& forall|k: int| 0 <= k < text@.len() ==> call_ensures(filter, (text@[k],), #[trigger] d[k])
                &&& final(self).codepoints() == appended(old(self).codepoints(), kept_codes(text@, d))
                &&& final(self).data_view() == overwrite_start(old(self).data_view(),
                    roaring_bytes(positions_of(final(self).codepoints(), kept_codes(text@, d))))
            },
    {
        let idx = self.used_cd_idx;
        if idx == u16::MAX {
            self.used_cd_idx = 0;
            let mut i: usize = 0;
            while i < CODEPOINT_LIMIT
                invariant
                    i <= CODEPOINT_LIMIT,
                    self.used_cd@.len() == CODEPOINT_LIMIT,
                    forall|k: int| 0 <= k < i ==> self.used_cd@[k] == 0,
                    self.codepoint_list@ == old(self).codepoint_list@,
                    self.glyph_mapping@ == old(self).glyph_mapping@,
                    self.index@ == old(self).index@,
                    self.data@ == old(self).data@,
                    self.used_cd_idx == 0,
                decreases CODEPOINT_LIMIT - i,
            {
                self.used_cd[i] = 0;
                i = i + 1;
            }
        } else {
            self.used_cd_idx = self.used_cd_idx + 1;
        }
        let ghost marks0 = self.used_cd@;
        let ghost list0 = self.codepoint_list@;
        assert(marks0 =~= marks_at_start16(old(self).used_cd@, idx));
        let mut bitset = roaring_new();
        let ghost mut d: Seq<bool> = Seq::empty();
        proof {
            assert(mark_chars16(marks0, text@.take(0), idx) =~= marks0);
            assert(text@.take(0) =~= Seq::<char>::empty());
            assert(roaring_contents(bitset) =~= positions_of(list0, Seq::<u32>::empty()));
        }
        for ch in it: text.chars()
            invariant
                it.seq() == text@,
                self.wf(),
                marks0.len() == CODEPOINT_LIMIT,
                self.index@ == old(self).index@,
                self.data@ == old(self).data@,
                self.used_cd_idx == next_generation16(idx),
                self.used_cd@ == mark_chars16(marks0, text@.take(it.index()), idx),
                forall|c: char| call_requires(filter, (c,)),
                d.len() == it.index(),
                forall|k: int| 0 <= k < it.index() ==> call_ensures(filter, (text@[k],), #[trigger] d[k]),
                self.codepoint_list@ == appended(list0, kept_codes(text@.take(it.index()), d)),
                forall|k: int| 0 <= k < kept_codes(text@.take(it.index()), d).len()
                    ==> self.codepoint_list@.contains(#[trigger] kept_codes(text@.take(it.index()), d)[k]),
                roaring_contents(bitset) == positions_of(self.codepoint_list@, kept_codes(text@.take(it.index()), d)),
        {
            let ghost k = it.index();
            let ghost prev = text@.take(k);
            let ghost next = text@.take(k + 1);
            let ghost list_before = self.codepoint_list@;
            let ghost kept_before = kept_codes(prev, d);
            assert(next =~= prev.push(ch));
            assert(next.drop_last() =~= prev);
            let c = char_code(ch);
            if (c as usize) < CODEPOINT_LIMIT {
                let cu = c as usize;
                if self.used_cd[cu] != idx {
                    self.used_cd[cu] = idx;
                }
                proof {
                    lemma_uses_push(prev, ch);
                    assert(self.used_cd@ =~= mark_chars16(marks0, next, idx));
                }
                let keep = filter(ch);
                proof {
                    assert(d.push(keep).drop_last() =~= d);
                    assert(kept_codes(next, d.push(keep)) == if keep { kept_before.push(c) } else { kept_before });
                }
                if keep {
                    let i = self.map_ch(c);
                    roaring_insert(&mut bitset, i);
                    proof {
                        let list = self.codepoint_list@;
                        let kept = kept_before.push(c);
                        assert(kept.drop_last() =~= kept_before);
                        assert(list_before.contains(c) == list_before.to_set().contains(c));
                        assert(appended(list0, kept) == list);
                        assert(list.contains(c)) by {
                            assert(self.glyph_mapping@.dom().contains(c));
                            assert(list.to_set().contains(c));
                        }
                        let j = choose|j: int| 0 <= j < list.len() && list[j] == c;
                        assert(self.glyph_mapping@[list[j]] == j);
                        assert(list[i as int] == c);
                        assert forall|m: int| 0 <= m < kept.len() implies list.contains(#[trigger] kept[m]) by {
                            if m < kept_before.len() {
                                assert(kept[m] == kept_before[m]);
                                let q = choose|q: int| 0 <= q < list_before.len() && list_before[q] == kept_before[m];
                                assert(list[q] == list_before[q]);
                            }
                        }
                        assert forall|x: u32| #[trigger] roaring_contents(bitset).contains(x)
                            == positions_of(list, kept).contains(x) by {
                            if (x as int) < list_before.len() {
                                assert(list[x as int] == list_before[x as int]);
                            }
                            if kept_before.contains(c) {
                                let q = choose|q: int| 0 <= q < kept_before.len() && kept_before[q] == c;
                                assert(list_before.contains(c));
                            }
                            if positions_of(list, kept).contains(x) && x != i && (x as int) >= list_before.len() {
                                assert(list.len() <= list_before.len() + 1);
                                assert(list[x as int] == c);
                            }
                            if kept.contains(list[x as int]) && (x as int) < list.len() {
                                let q = choose|q: int| 0 <= q < kept.len() && kept[q] == list[x as int];
                                if q < kept_before.len() {
                                    assert(kept_before[q] == kept[q]);
                                }
                            }
                        }
                        assert(roaring_contents(bitset) =~= positions_of(list, kept));
                    }
                }
                proof {
                    d = d.push(keep);
                }
            } else {
                proof {
                    assert(false);
                }
            }
        }
        assert(text@.take(text@.len() as int) =~= text@);
        self.index.push(self.data.len());
        roaring_serialize_over(&bitset, &mut self.data);
    }
}

/// A finished section: where each sample starts, the code points that its indices stand for,
/// and the serialized samples.
struct BitsetSection {
    index: Vec<usize>,
    codepoint_list: Vec<u32>,
    data: Vec<u8>,
}

/// The parts of a finished section, as plain values: sample starts, code points, data.
pub type SectionParts = (Vec<usize>, Vec<u32>, Vec<u8>);

/// The view of a section: sample starts, code points, data.
pub open spec fn parts_view(p: SectionParts) -> (Seq<usize>, Seq<u32>, Seq<u8>) {
    (p.0@, p.1@, p.2@)
}

/// The view of a builder once finished.
pub open spec fn builder_view(b: BitsetListBuilder) -> (Seq<usize>, Seq<u32>, Seq<u8>) {
    (b.starts(), b.codepoints(), b.data_view())
}

/// Number of samples in a list of sections.
pub open spec fn sample_count(sections: Seq<(Seq<usize>, Seq<u32>, Seq<u8>)>) -> nat
    decreases sections.len(),
{
    if sections.len() == 0 {
        0
    } else {
        sample_count(sections.drop_last()) + sections.last().0.len()
    }
}

/// A list of finished sections.
pub struct BitsetList {
    sections: Vec<BitsetSection>,
}

impl View for BitsetList {
    type V = Seq<(Seq<usize>, Seq<u32>, Seq<u8>)>;

    closed spec fn view(&self) -> Seq<(Seq<usize>, Seq<u32>, Seq<u8>)> {
        self.sections@.map_values(|x: BitsetSection| (x.index@, x.codepoint_list@, x.data@))
    }
}

/// Finishes a list from its section builders, keeping each one's starts, code points and data.
pub fn build(raw_sections: Vec<BitsetListBuilder>) -> (l: BitsetList)
    ensures
        l@ == raw_sections@.map_values(|b: BitsetListBuilder| builder_view(b)),
{
    let mut sections: Vec<BitsetSection> = Vec::new();
    let ghost all = raw_sections@;
    for b in it: raw_sections.into_iter()
        invariant
            it.seq() == all,
            sections@.len() == it.index(),
            forall|i: int| 0 <= i < sections@.len() ==> {
                &&& (#[trigger] sections@[i]).index@ == all[i].starts()
                &&& sections@[i].codepoint_list@ == all[i].codepoints()
                &&& sections@[i].data@ == all[i].data_view()
            },
    {
        sections.push(BitsetSection { index: b.index, codepoint_list: b.codepoint_list, data: b.data });
    }
    let l = BitsetList { sections };
    assert(l@ =~= all.map_values(|b: BitsetListBuilder| builder_view(b)));
    l
}

impl BitsetList {
    /// Makes a list from the parts of its sections.
    pub fn from_parts(parts: Vec<SectionParts>) -> (l: Self)
        ensures
            l@ == parts@.map_values(|p: SectionParts| parts_view(p)),
    {
        let mut sections: Vec<BitsetSection> = Vec::new();
        let ghost all = parts@;
        for p in it: parts.into_iter()
            invariant
                it.seq() == all,
                sections@.len() == it.index(),
                forall|i: int| 0 <= i < sections@.len() ==> {
                    &&& (#[trigger] sections@[i]).index@ == all[i].0@
                    &&& sections@[i].codepoint_list@ == all[i].1@
                    &&& sections@[i].data@ == all[i].2@
                },
        {
            sections.push(BitsetSection { index: p.0, codepoint_list: p.1, data: p.2 });
        }
        let l = BitsetList { sections };
        assert(l@ =~= all.map_values(|p: SectionParts| parts_view(p)));
        l
    }

    /// The parts of the sections, in order.
    pub fn to_parts(&self) -> (parts: Vec<SectionParts>)
        ensures
            parts@.map_values(|p: SectionParts| parts_view(p)) == self@,
    {
        let mut parts: Vec<SectionParts> = Vec::new();
        let mut i: usize = 0;
        while i < self.sections.len()
            invariant
                i <= self.sections@.len(),
                parts@.len() == i,
                forall|k: int| 0 <= k < i ==> #[trigger] parts_view(parts@[k]) == self@[k],
            decreases self.sections@.len() - i,
        {
            let s = &self.sections[i];
            parts.push((s.index.clone(), s.codepoint_list.clone(), s.data.clone()));
            i = i + 1;
        }
        assert(parts@.map_values(|p: SectionParts| parts_view(p)) =~= self@);
        parts
    }

    /// Total number of samples in all sections.
    pub fn len(&self) -> (n: u64)
        requires
            sample_count(self@) <= u64::MAX,
        ensures
            n == sample_count(self@),
    {
        let mut count: u64 = 0;
        let mut i: usize = 0;
        while i < self.sections.len()
            invariant
                i <= self@.len(),
                self@.len() == self.sections@.len(),
                sample_count(self@) <= u64::MAX,
                count == sample_count(self@.take(i as int)),
            decreases self@.len() - i,
        {
            proof {
                assert(self@.take(i + 1).drop_last() =~= self@.take(i as int));
                lemma_sample_count_prefix(self@, (i + 1) as nat);
            }
            count = count + self.sections[i].index.len() as u64;
            i = i + 1;
        }
        assert(self@.take(self@.len() as int) =~= self@);
        count
    }
}

/// The sample count of a prefix is at most that of the whole list.
proof fn lemma_sample_count_prefix(s: Seq<(Seq<usize>, Seq<u32>, Seq<u8>)>, n: nat)
    requires
        n <= s.len(),
    ensures
        sample_count(s.take(n as int)) <= sample_count(s),
    decreases s.len() - n,
{
    if n < s.len() {
        lemma_sample_count_prefix(s, n + 1);
        assert(s.take((n + 1) as int).drop_last() =~= s.take(n as int));
    } else {
        assert(s.take(n as int) =~= s);
    }
}

} // verus!
