//! Which font of a font stack serves which code points of a text, for building fallback fonts.
use vstd::prelude::*;
use std::collections::HashMap;
use roaring::RoaringBitmap;
use crate::roaring_bitmap::{roaring_contents, roaring_new, roaring_clone, roaring_intersection,
    roaring_difference, roaring_extend, roaring_is_empty, roaring_len};

verus! {

broadcast use vstd::std_specs::hash::group_hash_axioms;

/// What the fallback planning reads of a font face: its family, style and version names, and
/// the code points it has glyphs for.
pub struct FontFace {
    family: String,
    style: String,
    version: String,
    codepoints: RoaringBitmap,
}

impl FontFace {
    pub closed spec fn family_view(&self) -> Seq<char> {
        self.family@
    }

    pub closed spec fn style_view(&self) -> Seq<char> {
        self.style@
    }

    pub closed spec fn version_view(&self) -> Seq<char> {
        self.version@
    }

    /// The code points that the font has glyphs for.
    pub closed spec fn available(&self) -> Set<u32> {
        roaring_contents(self.codepoints)
    }

    /// A font face with these names and code points.
    pub fn new(family: String, style: String, version: String, codepoints: RoaringBitmap) -> (f: Self)
        ensures
            f.family_view() == family@,
            f.style_view() == style@,
            f.version_view() == version@,
            f.available() == roaring_contents(codepoints),
    {
        FontFace { family, style, version, codepoints }
    }

    /// The family name.
    pub fn font_family(&self) -> (s: &str)
        ensures
            s@ == self.family_view(),
    {
        self.family.as_str()
    }

    /// The style name.
    pub fn font_style(&self) -> (s: &str)
        ensures
            s@ == self.style_view(),
    {
        self.style.as_str()
    }

    /// The version string.
    pub fn font_version(&self) -> (s: &str)
        ensures
            s@ == self.version_view(),
    {
        self.version.as_str()
    }

    /// The code points that the font has glyphs for.
    pub fn all_codepoints(&self) -> (b: &RoaringBitmap)
        ensures
            roaring_contents(*b) == self.available(),
    {
        &self.codepoints
    }
}

/// The names that tell fonts apart: family, style, version.
pub type FontKey = (Seq<char>, Seq<char>, Seq<char>);

/// The names that tell fonts apart: family, style and version.
pub struct FontInfo(pub String, pub String, pub String);

impl FontInfo {
    pub open spec fn key(&self) -> FontKey {
        (self.0@, self.1@, self.2@)
    }

    /// The names of a font face.
    pub fn for_font(font: &FontFace) -> (info: FontInfo)
        ensures
            info.key() == (font.family_view(), font.style_view(), font.version_view()),
    {
        FontInfo(font.font_family().to_string(), font.font_style().to_string(), font.font_version().to_string())
    }
}

/// The key of a font face.
pub open spec fn key_of(font: FontFace) -> FontKey {
    (font.family_view(), font.style_view(), font.version_view())
}

/// A number standing for a font.
#[derive(Copy, Clone, Debug, PartialEq, Eq, Structural, Hash)]
pub struct FontId(pub usize);

impl FontId {
    /// Draws an id from a counter that is declared as a constant. Each use of such a constant is
    /// a fresh counter starting at zero, so every id drawn is 0.
    pub fn new() -> (id: FontId)
        ensures
            id.0 == 0,
    {
        let counter: usize = 0;
        FontId(counter)
    }
}

/// The id that a font with key `k` gets from an assigner whose table is `ids`: the one already
/// there, else a new one (which is 0).
pub open spec fn assigned_id(ids: Map<FontKey, usize>, k: FontKey) -> usize {
    if ids.contains_key(k) { ids[k] } else { 0 }
}

/// Gives each distinct font (by its names) an id, the same id each time the font comes back.
pub struct FontIdAssigner(Vec<(FontInfo, FontId)>);

impl FontIdAssigner {
    /// The id of each font seen so far.
    pub closed spec fn ids(&self) -> Map<FontKey, usize> {
        Map::new(
            |k: FontKey| exists|i: int| 0 <= i < self.0@.len() && (#[trigger] self.0@[i]).0.key() == k,
            |k: FontKey| self.0@[self.first_index(k)].1.0,
        )
    }

    /// The position of the entry for `k`.
    closed spec fn first_index(&self, k: FontKey) -> int {
        choose|i: int| 0 <= i < self.0@.len() && (#[trigger] self.0@[i]).0.key() == k
    }

    /// No two entries have the same key.
    #[verifier::type_invariant]
    closed spec fn wf(&self) -> bool {
        forall|i: int, j: int| 0 <= i < j < self.0@.len() ==> (#[trigger] self.0@[i]).0.key() != (#[trigger] self.0@[j]).0.key()
    }

    /// Two entries with the same key are the same entry.
    proof fn lemma_unique(&self, i: int, j: int)
        requires
            self.wf(),
            0 <= i < self.0@.len(),
            0 <= j < self.0@.len(),
            self.0@[i].0.key() == self.0@[j].0.key(),
        ensures
            i == j,
    {
        if i < j {
            assert(self.0@[i].0.key() != self.0@[j].0.key());
        } else if j < i {
            assert(self.0@[j].0.key() != self.0@[i].0.key());
        }
    }

    /// An assigner that has seen no font.
    pub fn new() -> (a: Self)
        ensures
            a.ids() == Map::<FontKey, usize>::empty(),
    {
        let a = FontIdAssigner(Vec::new());
        assert(a.ids() =~= Map::<FontKey, usize>::empty());
        a
    }

    /// The id of `font`: the one it was given before, or a new one.
    pub fn get_id(&mut self, font: &FontFace) -> (id: FontId)
        ensures
            id.0 == assigned_id(old(self).ids(), key_of(*font)),
            final(self).ids() == old(self).ids().insert(key_of(*font), id.0),
    {
        proof { use_type_invariant(&*self); }
        let info = FontInfo::for_font(font);
        let mut i: usize = 0;
        while i < self.0.len()
            invariant
                i <= self.0@.len(),
                self.wf(),
                info.key() == key_of(*font),
                forall|k: int| 0 <= k < i ==> (#[trigger] self.0@[k]).0.key() != info.key(),
            decreases self.0@.len() - i,
        {
            let entry = &self.0[i];
            if entry.0.0 == info.0 && entry.0.1 == info.1 && entry.0.2 == info.2 {
                let id = entry.1;
                proof {
                    assert(self.ids().contains_key(info.key()));
                    let j = self.first_index(info.key());
                    self.lemma_unique(i as int, j);
                    assert(self.ids().insert(info.key(), id.0) =~= self.ids());
                }
                return id;
            }
            i = i + 1;
        }
        let id = FontId::new();
        let ghost before = *self;
        proof {
            assert(!before.ids().contains_key(info.key()));
        }
        let mut entries: Vec<(FontInfo, FontId)> = Vec::new();
        std::mem::swap(&mut entries, &mut self.0);
        entries.push((info, id));
        self.0 = entries;
        proof {
            use_type_invariant(&*self);
            assert forall|k: FontKey| #[trigger] self.ids().contains_key(k) == before.ids().insert(info.key(), id.0).contains_key(k) by {
                if self.ids().contains_key(k) {
                    let j = choose|j: int| 0 <= j < self.0@.len() && (#[trigger] self.0@[j]).0.key() == k;
                    if j < before.0@.len() {
                        assert(self.0@[j] == before.0@[j]);
                    }
                }
                if before.ids().contains_key(k) {
                    let j = choose|j: int| 0 <= j < before.0@.len() && (#[trigger] before.0@[j]).0.key() == k;
                    assert(self.0@[j] == before.0@[j]);
                }
                if k == info.key() {
                    assert(self.0@[before.0@.len() as int].0.key() == k);
                }
            }
            assert forall|k: FontKey| #[trigger] self.ids().contains_key(k) implies self.ids()[k] == before.ids().insert(info.key(), id.0)[k] by {
                let j = self.first_index(k);
                if k == info.key() {
                    self.lemma_unique(before.0@.len() as int, j);
                } else {
                    let jb = before.first_index(k);
                    assert(self.0@[jb] == before.0@[jb]);
                    self.lemma_unique(jb, j);
                    assert(self.0@[j] == before.0@[j]);
                }
            }
            assert(self.ids() =~= before.ids().insert(info.key(), id.0));
        }
        id
    }
}

/// The code points of `text` that no font before position `k` of the stack covers.
pub open spec fn remaining(text: Set<u32>, avail: Seq<Set<u32>>, k: nat) -> Set<u32>
    decreases k,
{
    if k == 0 || k > avail.len() {
        text
    } else {
        remaining(text, avail, (k - 1) as nat).difference(avail[k - 1])
    }
}

/// The code points that the font at position `i` serves: those of the text that it covers and
/// that no earlier font covers.
pub open spec fn fulfilled(text: Set<u32>, avail: Seq<Set<u32>>, i: int) -> Set<u32> {
    avail[i].intersect(remaining(text, avail, i as nat))
}

/// What the fonts before position `k` whose id is `x` serve.
pub open spec fn served(text: Set<u32>, avail: Seq<Set<u32>>, ids: Seq<usize>, x: usize, k: nat) -> Set<u32>
    decreases k,
{
    if k == 0 {
        Set::empty()
    } else {
        served(text, avail, ids, x, (k - 1) as nat).union(
            if ids[k - 1] == x { fulfilled(text, avail, k - 1) } else { Set::empty() })
    }
}

/// A font with id `x` stands before position `i` of the stack.
pub open spec fn stands_before(ids: Seq<usize>, x: usize, i: int) -> bool {
    exists|j: int| 0 <= j < i && ids[j] == x
}

/// What the fonts before position `k` serve behind a font with id `x`: the ranges that a font
/// with id `x` must not claim.
pub open spec fn shadowed(text: Set<u32>, avail: Seq<Set<u32>>, ids: Seq<usize>, x: usize, k: nat) -> Set<u32>
    decreases k,
{
    if k == 0 {
        Set::empty()
    } else {
        shadowed(text, avail, ids, x, (k - 1) as nat).union(
            if stands_before(ids, x, k - 1) { fulfilled(text, avail, k - 1) } else { Set::empty() })
    }
}

/// The family names of a stack, separated by `", "`.
pub open spec fn stack_names(fonts: Seq<FontFace>) -> Seq<char>
    decreases fonts.len(),
{
    if fonts.len() == 0 {
        Seq::empty()
    } else if fonts.len() == 1 {
        fonts[0].family_view()
    } else {
        stack_names(fonts.drop_last()) + seq![',', ' '] + fonts.last().family_view()
    }
}

/// The id table after the fonts of a stack were looked up: every font seen before keeps its id,
/// and every new one gets 0.
pub open spec fn registered(ids: Map<FontKey, usize>, fonts: Seq<FontFace>) -> Map<FontKey, usize> {
    Map::new(
        |k: FontKey| ids.contains_key(k) || exists|i: int| 0 <= i < fonts.len() && key_of(#[trigger] fonts[i]) == k,
        |k: FontKey| assigned_id(ids, k),
    )
}

/// The subset and range exclusions recorded for id `x`, empty where there are none.
pub open spec fn entry_of(m: Map<usize, (Set<u32>, Set<u32>)>, x: usize) -> (Set<u32>, Set<u32>) {
    if m.contains_key(x) { m[x] } else { (Set::empty(), Set::empty()) }
}

/// What each font of a stack covers.
pub open spec fn avails(fonts: Seq<FontFace>) -> Seq<Set<u32>> {
    fonts.map_values(|f: FontFace| f.available())
}

/// The id of each font of a stack, looked up in the id table `ids`.
pub open spec fn stack_ids(ids: Map<FontKey, usize>, fonts: Seq<FontFace>) -> Seq<usize> {
    fonts.map_values(|f: FontFace| assigned_id(ids, key_of(f)))
}

/// The subsets after the fonts before position `k` took what they serve of `text`; every id of
/// those fonts has an entry.
pub open spec fn served_state(
    s0: Map<usize, (Set<u32>, Set<u32>)>,
    text: Set<u32>,
    avail: Seq<Set<u32>>,
    sids: Seq<usize>,
    k: nat,
) -> Map<usize, (Set<u32>, Set<u32>)> {
    Map::new(
        |x: usize| s0.contains_key(x) || sids.take(k as int).contains(x),
        |x: usize| (entry_of(s0, x).0.union(served(text, avail, sids, x, k)), entry_of(s0, x).1),
    )
}

/// `base` with the range exclusions that the fonts before position `k` impose added.
pub open spec fn shadowed_state(
    base: Map<usize, (Set<u32>, Set<u32>)>,
    text: Set<u32>,
    avail: Seq<Set<u32>>,
    sids: Seq<usize>,
    k: nat,
) -> Map<usize, (Set<u32>, Set<u32>)> {
    Map::new(
        |x: usize| base.contains_key(x),
        |x: usize| (base[x].0, base[x].1.union(shadowed(text, avail, sids, x, k))),
    )
}

/// A font id that no font before position `k` has is served nothing by them.
proof fn lemma_served_absent(text: Set<u32>, avail: Seq<Set<u32>>, sids: Seq<usize>, x: usize, k: nat)
    requires
        k <= sids.len(),
        !sids.take(k as int).contains(x),
    ensures
        served(text, avail, sids, x, k) == Set::<u32>::empty(),
    decreases k,
{
    if k > 0 {
        let p = sids.take(k - 1);
        assert(!p.contains(x)) by {
            if p.contains(x) {
                let j = choose|j: int| 0 <= j < p.len() && #[trigger] p[j] == x;
                assert(sids.take(k as int)[j] == x);
            }
        }
        assert(sids[k - 1] != x) by {
            assert(sids.take(k as int)[k - 1] == sids[k - 1]);
        }
        lemma_served_absent(text, avail, sids, x, (k - 1) as nat);
        assert(served(text, avail, sids, x, k) =~= Set::<u32>::empty());
    }
}

/// The exclusions part way through position `i`: the fonts before position `j` have taken what
/// the font at position `i` serves.
spec fn shadowed_part(
    base: Map<usize, (Set<u32>, Set<u32>)>,
    text: Set<u32>,
    avail: Seq<Set<u32>>,
    sids: Seq<usize>,
    i: nat,
    j: nat,
) -> Map<usize, (Set<u32>, Set<u32>)> {
    Map::new(
        |x: usize| base.contains_key(x),
        |x: usize| (base[x].0, base[x].1.union(shadowed(text, avail, sids, x, i)).union(
            if stands_before(sids, x, j as int) { fulfilled(text, avail, i as int) } else { Set::empty() })),
    )
}

/// Some code points of a text are in no font of the stack.
pub struct MissingCodepoints {
    /// How many code points are missing.
    pub count: u64,
    /// The family names of the stack, separated by `", "`.
    pub stack: String,
}

impl MissingCodepoints {
    /// The error message.
    pub fn message(&self) -> (m: String)
        ensures
            m@ == crate::text::decimal(self.count as nat) + " codepoints are not found in the font stack: "@ + self.stack@,
    {
        let mut out: Vec<char> = Vec::new();
        crate::text::push_decimal(&mut out, self.count);
        crate::text::push_str(&mut out, " codepoints are not found in the font stack: ");
        crate::text::push_str(&mut out, self.stack.as_str());
        crate::text::string_from_chars(&out)
    }
}

/// The code points one font serves, and those it must leave to fonts before it.
struct SubsetInfo {
    subset: RoaringBitmap,
    range_exclusions: RoaringBitmap,
}

/// Decides, for each font, the code points it serves in the texts pushed so far.
pub struct SubsetAssigner {
    ids: FontIdAssigner,
    assigned_subsets: HashMap<usize, SubsetInfo>,
}

impl SubsetAssigner {
    /// The id of each font seen so far.
    pub closed spec fn font_ids(&self) -> Map<FontKey, usize> {
        self.ids.ids()
    }

    /// For each font id, the code points it serves and the code points it must not claim.
    pub closed spec fn subsets(&self) -> Map<usize, (Set<u32>, Set<u32>)> {
        self.assigned_subsets@.map_values(|s: SubsetInfo| (roaring_contents(s.subset), roaring_contents(s.range_exclusions)))
    }

    /// An assigner that has seen no font and no text.
    pub fn new() -> (a: Self)
        ensures
            a.font_ids() == Map::<FontKey, usize>::empty(),
            a.subsets() == Map::<usize, (Set<u32>, Set<u32>)>::empty(),
    {
        let a = SubsetAssigner { ids: FontIdAssigner::new(), assigned_subsets: HashMap::new() };
        assert(a.subsets() =~= Map::<usize, (Set<u32>, Set<u32>)>::empty());
        a
    }

    /// Assigns the code points of `text` along the stack `fonts`: each goes to the first font that
    /// covers it. Each font also records, as range exclusions, what the fonts after it serve.
    /// Fails when some code point is in no font of the stack; the subsets have then taken their
    /// code points already, and no range exclusion was recorded.
    pub fn push_stack(&mut self, text: RoaringBitmap, fonts: &[FontFace]) -> (r: Result<(), MissingCodepoints>)
        ensures
            final(self).font_ids() == registered(old(self).font_ids(), fonts@),
            r is Ok <==> remaining(roaring_contents(text), avails(fonts@), fonts@.len()) == Set::<u32>::empty(),
            r matches Err(e) ==> {
                &&& e.count == remaining(roaring_contents(text), avails(fonts@), fonts@.len()).len()
                &&& e.stack@ == stack_names(fonts@)
            },
            r is Err ==> final(self).subsets() == served_state(old(self).subsets(), roaring_contents(text),
                avails(fonts@), stack_ids(old(self).font_ids(), fonts@), fonts@.len()),
            r is Ok ==> final(self).subsets() == shadowed_state(served_state(old(self).subsets(),
                roaring_contents(text), avails(fonts@), stack_ids(old(self).font_ids(), fonts@), fonts@.len()),
                roaring_contents(text), avails(fonts@), stack_ids(old(self).font_ids(), fonts@), fonts@.len()),
    {
        let ghost m0 = self.font_ids();
        let ghost s0 = self.subsets();
        let ghost t = roaring_contents(text);
        let ghost avail = avails(fonts@);
        let ghost sids = stack_ids(m0, fonts@);
        let n = fonts.len();
        let mut ids: Vec<usize> = Vec::new();
        let mut i: usize = 0;
        proof {
            assert(registered(m0, fonts@.take(0)) =~= m0);
        }
        while i < n
            invariant
                n == fonts@.len(),
                i <= n,
                sids == stack_ids(m0, fonts@),
                ids@ == sids.take(i as int),
                self.subsets() == s0,
                self.font_ids() == registered(m0, fonts@.take(i as int)),
            decreases n - i,
        {
            let id = self.ids.get_id(&fonts[i]);
            proof {
                let p = fonts@.take(i as int);
                let k = key_of(fonts@[i as int]);
                assert(fonts@.take(i + 1) =~= p.push(fonts@[i as int]));
                assert(registered(m0, fonts@.take(i + 1)) =~= registered(m0, p).insert(k, id.0)) by {
                    assert forall|q: FontKey| #[trigger] registered(m0, fonts@.take(i + 1)).contains_key(q)
                        == registered(m0, p).insert(k, id.0).contains_key(q) by {
                        let pp = fonts@.take(i + 1);
                        if registered(m0, pp).contains_key(q) && !m0.contains_key(q) {
                            let j = choose|j: int| 0 <= j < pp.len() && key_of(#[trigger] pp[j]) == q;
                            if j < i {
                                assert(pp[j] == p[j]);
                            }
                        }
                        if registered(m0, p).contains_key(q) && !m0.contains_key(q) {
                            let j = choose|j: int| 0 <= j < p.len() && key_of(#[trigger] p[j]) == q;
                            assert(pp[j] == p[j]);
                        }
                        if q == k {
                            assert(pp[i as int] == fonts@[i as int]);
                        }
                    }
                }
            }
            ids.push(id.0);
            proof {
                assert(ids@ =~= sids.take(i + 1));
            }
            i = i + 1;
        }
        proof {
            assert(fonts@.take(n as int) =~= fonts@);
            assert(sids.take(n as int) =~= sids);
        }

        let mut reverse_pass: Vec<RoaringBitmap> = Vec::new();
        let mut current = roaring_clone(&text);
        proof {
            assert(served_state(s0, t, avail, sids, 0) =~= s0) by {
                assert forall|x: usize| #[trigger] served_state(s0, t, avail, sids, 0).contains_key(x) implies
                    served_state(s0, t, avail, sids, 0)[x] == s0[x] by {
                    assert(sids.take(0) =~= Seq::<usize>::empty());
                    assert(served_state(s0, t, avail, sids, 0)[x].0 =~= s0[x].0);
                }
                assert(sids.take(0) =~= Seq::<usize>::empty());
            }
        }
        i = 0;
        while i < n
            invariant
                n == fonts@.len(),
                i <= n,
                avail == avails(fonts@),
                sids == stack_ids(m0, fonts@),
                ids@ == sids,
                roaring_contents(current) == remaining(t, avail, i as nat),
                reverse_pass@.len() == i,
                forall|k: int| 0 <= k < i ==> roaring_contents(#[trigger] reverse_pass@[k]) == fulfilled(t, avail, k),
                self.subsets() == served_state(s0, t, avail, sids, i as nat),
                self.font_ids() == registered(m0, fonts@),
            decreases n - i,
        {
            let fulfilled_codepoints = roaring_intersection(fonts[i].all_codepoints(), &current);
            let ghost before = self.subsets();
            self.extend_entry(ids[i], &fulfilled_codepoints, false);
            proof {
                let x0 = sids[i as int];
                assert(roaring_contents(fulfilled_codepoints) =~= fulfilled(t, avail, i as int));
                assert(sids.take(i + 1) =~= sids.take(i as int).push(x0));
                let want = served_state(s0, t, avail, sids, (i + 1) as nat);
                assert forall|x: usize| #[trigger] want.contains_key(x) == self.subsets().contains_key(x) by {
                    let ti = sids.take(i + 1);
                    let tp = sids.take(i as int);
                    assert(ti.contains(x) == (tp.contains(x) || x == x0)) by {
                        if ti.contains(x) {
                            let j = choose|j: int| 0 <= j < ti.len() && #[trigger] ti[j] == x;
                            if j < i {
                                assert(tp[j] == x);
                            }
                        }
                        if tp.contains(x) {
                            let j = choose|j: int| 0 <= j < tp.len() && #[trigger] tp[j] == x;
                            assert(ti[j] == x);
                        }
                        if x == x0 {
                            assert(ti[i as int] == x);
                        }
                    }
                }
                assert forall|x: usize| #[trigger] want.contains_key(x) implies want[x] == self.subsets()[x] by {
                    assert(served(t, avail, sids, x, (i + 1) as nat) == served(t, avail, sids, x, i as nat).union(
                        if sids[i as int] == x { fulfilled(t, avail, i as int) } else { Set::<u32>::empty() }));
                    if x == x0 && !before.contains_key(x) {
                        lemma_served_absent(t, avail, sids, x, i as nat);
                    }
                    assert(want[x].0 =~= self.subsets()[x].0);
                    assert(want[x].1 =~= self.subsets()[x].1);
                }
                assert(self.subsets().dom() =~= want.dom());
                assert forall|x: usize| #[trigger] self.subsets().contains_key(x) implies self.subsets()[x] == want[x] by {
                    assert(want.contains_key(x));
                }
                assert(self.subsets() =~= want);
            }
            reverse_pass.push(roaring_clone(&fulfilled_codepoints));
            current = roaring_difference(current, fulfilled_codepoints);
            proof {
                assert(roaring_contents(current) =~= remaining(t, avail, (i + 1) as nat));
            }
            i = i + 1;
        }

        if !roaring_is_empty(&current) {
            let mut stack: Vec<char> = Vec::new();
            let mut is_first = true;
            let mut k: usize = 0;
            while k < n
                invariant
                    n == fonts@.len(),
                    k <= n,
                    is_first == (k == 0),
                    stack@ == stack_names(fonts@.take(k as int)),
                decreases n - k,
            {
                proof {
                    let p = fonts@.take(k + 1);
                    assert(p.drop_last() =~= fonts@.take(k as int));
                    if k == 0 {
                        assert(fonts@.take(0) =~= Seq::<FontFace>::empty());
                    }
                }
                if !is_first {
                    crate::text::push_str(&mut stack, ", ");
                    proof { reveal_strlit(", "); }
                }
                is_first = false;
                crate::text::push_str(&mut stack, fonts[k].font_family());
                proof {
                    let p = fonts@.take(k + 1);
                    assert(stack@ =~= stack_names(p));
                }
                k = k + 1;
            }
            proof {
                assert(fonts@.take(n as int) =~= fonts@);
            }
            let count = roaring_len(&current);
            let stack = crate::text::string_from_chars(&stack);
            return Err(MissingCodepoints { count, stack });
        }

        let ghost base = self.subsets();
        proof {
            assert(shadowed_part(base, t, avail, sids, 0, 0) =~= base) by {
                assert forall|x: usize| #[trigger] base.contains_key(x) implies
                    shadowed_part(base, t, avail, sids, 0, 0)[x] == base[x] by {
                    assert(shadowed_part(base, t, avail, sids, 0, 0)[x].1 =~= base[x].1);
                }
            }
        }
        i = 0;
        while i < n
            invariant
                n == fonts@.len(),
                i <= n,
                avail == avails(fonts@),
                sids == stack_ids(m0, fonts@),
                ids@ == sids,
                base == served_state(s0, t, avail, sids, n as nat),
                reverse_pass@.len() == n,
                forall|k: int| 0 <= k < n ==> roaring_contents(#[trigger] reverse_pass@[k]) == fulfilled(t, avail, k),
                self.subsets() == shadowed_part(base, t, avail, sids, i as nat, 0),
                self.font_ids() == registered(m0, fonts@),
            decreases n - i,
        {
            let mut j: usize = 0;
            while j < i
                invariant
                    n == fonts@.len(),
                    j <= i < n,
                    sids == stack_ids(m0, fonts@),
                    ids@ == sids,
                    base == served_state(s0, t, avail, sids, n as nat),
                    reverse_pass@.len() == n,
                    roaring_contents(reverse_pass@[i as int]) == fulfilled(t, avail, i as int),
                    self.subsets() == shadowed_part(base, t, avail, sids, i as nat, j as nat),
                    self.font_ids() == registered(m0, fonts@),
                decreases i - j,
            {
                self.extend_entry(ids[j], &reverse_pass[i], true);
                proof {
                    let x0 = sids[j as int];
                    let want = shadowed_part(base, t, avail, sids, i as nat, (j + 1) as nat);
                    assert(base.contains_key(x0)) by {
                        assert(sids.take(n as int)[j as int] == x0);
                    }
                    assert forall|x: usize| #[trigger] want.contains_key(x) == self.subsets().contains_key(x) by {}
                    assert forall|x: usize| #[trigger] want.contains_key(x) implies want[x] == self.subsets()[x] by {
                        assert(stands_before(sids, x, j + 1) == (stands_before(sids, x, j as int) || x == x0)) by {
                            if stands_before(sids, x, j + 1) {
                                let q = choose|q: int| 0 <= q < j + 1 && #[trigger] sids[q] == x;
                            }
                        }
                        assert(want[x].1 =~= self.subsets()[x].1);
                    }
                    assert(self.subsets().dom() =~= want.dom());
                    assert forall|x: usize| #[trigger] self.subsets().contains_key(x) implies self.subsets()[x] == want[x] by {
                        assert(want.contains_key(x));
                    }
                    assert(self.subsets() =~= want);
                }
                j = j + 1;
            }
            proof {
                let want = shadowed_part(base, t, avail, sids, (i + 1) as nat, 0);
                assert(self.subsets().dom() =~= want.dom());
                assert forall|x: usize| #[trigger] self.subsets().contains_key(x) implies self.subsets()[x] == want[x] by {
                    assert(shadowed(t, avail, sids, x, (i + 1) as nat) == shadowed(t, avail, sids, x, i as nat).union(
                        if stands_before(sids, x, i as int) { fulfilled(t, avail, i as int) } else { Set::<u32>::empty() }));
                    assert(want[x].1 =~= self.subsets()[x].1);
                }
                assert(self.subsets() =~= want);
            }
            i = i + 1;
        }
        proof {
            let want = shadowed_state(base, t, avail, sids, n as nat);
            assert(self.subsets().dom() =~= want.dom());
            assert forall|x: usize| #[trigger] self.subsets().contains_key(x) implies self.subsets()[x] == want[x] by {
                assert(want[x].1 =~= self.subsets()[x].1);
            }
            assert(self.subsets() =~= want);
        }
        Ok(())
    }

    /// Adds `bits` to the subset (`exclusions` false) or the range exclusions (`exclusions`
    /// true) of font `id`, making its entry if there is none.
    fn extend_entry(&mut self, id: usize, bits: &RoaringBitmap, exclusions: bool)
        ensures
            final(self).font_ids() == old(self).font_ids(),
            final(self).subsets() == old(self).subsets().insert(id, if exclusions {
                (entry_of(old(self).subsets(), id).0, entry_of(old(self).subsets(), id).1.union(roaring_contents(*bits)))
            } else {
                (entry_of(old(self).subsets(), id).0.union(roaring_contents(*bits)), entry_of(old(self).subsets(), id).1)
            }),
    {
        let mut info = match self.assigned_subsets.remove(&id) {
            Some(info) => info,
            None => SubsetInfo { subset: roaring_new(), range_exclusions: roaring_new() },
        };
        if exclusions {
            roaring_extend(&mut info.range_exclusions, bits);
        } else {
            roaring_extend(&mut info.subset, bits);
        }
        self.assigned_subsets.insert(id, info);
        proof {
            assert(self.subsets() =~= old(self).subsets().insert(id, if exclusions {
                (entry_of(old(self).subsets(), id).0, entry_of(old(self).subsets(), id).1.union(roaring_contents(*bits)))
            } else {
                (entry_of(old(self).subsets(), id).0.union(roaring_contents(*bits)), entry_of(old(self).subsets(), id).1)
            }));
        }
    }
}

/// What the fonts before position `k` serve, all together.
pub open spec fn served_by_any(text: Set<u32>, avail: Seq<Set<u32>>, k: nat) -> Set<u32>
    decreases k,
{
    if k == 0 {
        Set::empty()
    } else {
        served_by_any(text, avail, (k - 1) as nat).union(fulfilled(text, avail, k - 1))
    }
}

/// What is left of the text only shrinks along the stack.
proof fn lemma_remaining_shrinks(text: Set<u32>, avail: Seq<Set<u32>>, a: nat, b: nat)
    requires
        a <= b <= avail.len(),
    ensures
        remaining(text, avail, b).subset_of(remaining(text, avail, a)),
    decreases b - a,
{
    if a < b {
        lemma_remaining_shrinks(text, avail, a, (b - 1) as nat);
    }
}

/// Along a stack, each code point of the text goes to one font at most, the first that covers
/// it: the parts that the fonts serve are pairwise disjoint, and together with what is left they
/// make up the text. So when nothing is left, the fonts share the text out exactly.
pub proof fn law_stack_shares_text(text: Set<u32>, avail: Seq<Set<u32>>, k: nat)
    requires
        k <= avail.len(),
    ensures
        served_by_any(text, avail, k).union(remaining(text, avail, k)) == text,
        served_by_any(text, avail, k).disjoint(remaining(text, avail, k)),
        forall|i: int, j: int| 0 <= i < j < k ==>
            (#[trigger] fulfilled(text, avail, i)).disjoint(#[trigger] fulfilled(text, avail, j)),
    decreases k,
{
    if k > 0 {
        let p = (k - 1) as nat;
        law_stack_shares_text(text, avail, p);
        assert(served_by_any(text, avail, k).union(remaining(text, avail, k)) =~= text);
        assert forall|i: int, j: int| 0 <= i < j < k implies
            (#[trigger] fulfilled(text, avail, i)).disjoint(#[trigger] fulfilled(text, avail, j)) by {
            lemma_remaining_shrinks(text, avail, (i + 1) as nat, j as nat);
        }
    } else {
        assert(served_by_any(text, avail, k).union(remaining(text, avail, k)) =~= text);
    }
}

} // verus!
