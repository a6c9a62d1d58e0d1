//! The text found on a web page, grouped by the font stack it is set in.
use vstd::prelude::*;
use crate::sort::{sort_distinct, strictly_increasing};
use crate::text::{char_code, string_from_chars};
use crate::apply_rules::ParsedFontStyle;
use crate::order::{Comparison, compares_as, string_views, strs_lt, str_lt, i32_lt, i32s_lt, lemma_orders_strict_total,
    lemma_sorted_distinct, lemma_insert_sorted, compare_string_lists, compare_i32_lists, insert_sorted_string,
    insert_sorted_i32, copy_strings, copy_i32s};
use vstd::relations::{strict_total_ordering, sorted_by};

verus! {

/// The styles a text sample is rendered in.
#[derive(Copy, Clone, Debug, PartialEq, Eq, Structural)]
pub enum TextSampleStyle {
    Normal,
    Italics,
    Oblique,
}

/// A set of styles.
#[derive(Copy, Clone, Debug, PartialEq, Eq, Structural)]
pub struct StyleSet {
    pub normal: bool,
    pub italics: bool,
    pub oblique: bool,
}

/// Text rendered with one combination of styles and weights.
pub struct TextSample {
    pub used_styles: StyleSet,
    pub used_weights: Vec<i32>,
    pub content: Vec<String>,
}

/// The samples set in one font stack.
pub struct FontStackInfo {
    pub stack: Vec<String>,
    pub samples: Vec<TextSample>,
}

/// The characters that occur in the texts.
pub open spec fn chars_in(texts: Seq<String>) -> Set<char> {
    Set::new(|c: char| exists|i: int, j: int| 0 <= i < texts.len() && 0 <= j < texts[i]@.len() && #[trigger] texts[i]@[j] == c)
}

/// The characters that occur in the texts of the samples.
pub open spec fn chars_in_samples(samples: Seq<TextSample>) -> Set<char> {
    Set::new(|c: char| exists|k: int| 0 <= k < samples.len() && #[trigger] chars_in(samples[k].content@).contains(c))
}

/// `s` holds each character of `set` once, in increasing order.
pub open spec fn sorted_chars_of(s: Seq<char>, set: Set<char>) -> bool {
    &&& forall|i: int, j: int| 0 <= i < j < s.len() ==> (s[i] as u32) < (s[j] as u32)
    &&& s.to_set() == set
}

/// Appends the codes of the characters of `text` to `codes`.
fn push_codes(codes: &mut Vec<u32>, text: &str)
    ensures
        final(codes)@ == old(codes)@ + text@.map_values(|c: char| c as u32),
{
    for c in it: text.chars()
        invariant
            it.seq() == text@,
            codes@ == old(codes)@ + text@.take(it.index()).map_values(|c: char| c as u32),
    {
        let ghost k = it.index();
        codes.push(char_code(c));
        assert(text@.take(k + 1).map_values(|c: char| c as u32) =~= text@.take(k).map_values(|c: char| c as u32).push(c as u32));
    }
    assert(text@.take(text@.len() as int) =~= text@);
}

/// The characters of the codes, which are codes of characters.
fn chars_from_codes(codes: &Vec<u32>) -> (s: String)
    requires
        forall|i: int| 0 <= i < codes@.len() ==> crate::text::is_scalar(#[trigger] codes@[i] as int),
    ensures
        s@.len() == codes@.len(),
        forall|i: int| 0 <= i < codes@.len() ==> #[trigger] s@[i] as u32 == codes@[i],
{
    let mut out: Vec<char> = Vec::new();
    let mut i: usize = 0;
    while i < codes.len()
        invariant
            i <= codes@.len(),
            out@.len() == i,
            forall|k: int| 0 <= k < codes@.len() ==> crate::text::is_scalar(#[trigger] codes@[k] as int),
            forall|k: int| 0 <= k < i ==> #[trigger] out@[k] as u32 == codes@[k],
        decreases codes@.len() - i,
    {
        match core::char::from_u32(codes[i]) {
            Some(c) => out.push(c),
            None => {
                assert(false);
            },
        }
        i = i + 1;
    }
    string_from_chars(&out)
}

/// The distinct characters of the texts, in increasing order.
fn sorted_distinct_chars(codes: &Vec<u32>, Ghost(set): Ghost<Set<char>>) -> (s: String)
    requires
        forall|x: u32| codes@.contains(x) <==> exists|c: char| set.contains(c) && c as u32 == x,
    ensures
        sorted_chars_of(s@, set),
{
    let sorted = sort_distinct(codes);
    proof {
        assert forall|i: int| 0 <= i < sorted@.len() implies crate::text::is_scalar(#[trigger] sorted@[i] as int) by {
            assert(sorted@.to_set().contains(sorted@[i]));
            assert(codes@.to_set().contains(sorted@[i]));
            let c = choose|c: char| set.contains(c) && c as u32 == sorted@[i];
            crate::text::lemma_char_scalar(c);
        }
    }
    let s = chars_from_codes(&sorted);
    proof {
        assert forall|c: char| s@.to_set().contains(c) == set.contains(c) by {
            if s@.to_set().contains(c) {
                let i = choose|i: int| 0 <= i < s@.len() && s@[i] == c;
                assert(sorted@.to_set().contains(sorted@[i]));
                assert(codes@.to_set().contains(sorted@[i]));
                let d = choose|d: char| set.contains(d) && d as u32 == sorted@[i];
                crate::text::lemma_char_code_injective(c, d);
            }
            if set.contains(c) {
                assert(codes@.contains(c as u32));
                assert(sorted@.to_set().contains(c as u32));
                let i = choose|i: int| 0 <= i < sorted@.len() && sorted@[i] == c as u32;
                crate::text::lemma_char_code_injective(c, s@[i]);
                assert(s@.to_set().contains(s@[i]));
            }
        }
        assert(s@.to_set() =~= set);
    }
    s
}

/// Appends the codes of the characters of each text to `codes`; afterwards, `codes` holds a
/// code exactly when it held it before or it is that of a character of the texts.
fn push_texts(codes: &mut Vec<u32>, texts: &Vec<String>)
    ensures
        forall|x: u32| final(codes)@.contains(x) <==> (old(codes)@.contains(x)
            || exists|c: char| chars_in(texts@).contains(c) && c as u32 == x),
{
    let mut i: usize = 0;
    while i < texts.len()
        invariant
            i <= texts@.len(),
            forall|x: u32| codes@.contains(x) <==> (old(codes)@.contains(x)
                || exists|c: char| chars_in(texts@.take(i as int)).contains(c) && c as u32 == x),
        decreases texts@.len() - i,
    {
        let ghost before = codes@;
        push_codes(codes, texts[i].as_str());
        proof {
            let t = texts@[i as int]@;
            let p = texts@.take(i as int);
            let q = texts@.take(i + 1);
            assert forall|x: u32| codes@.contains(x) <==> (old(codes)@.contains(x)
                || exists|c: char| chars_in(q).contains(c) && c as u32 == x) by {
                if codes@.contains(x) {
                    let k = choose|k: int| 0 <= k < codes@.len() && codes@[k] == x;
                    if k >= before.len() {
                        let j = k - before.len();
                        assert(t.map_values(|c: char| c as u32)[j] == x);
                        assert(q[i as int]@[j] == t[j]);
                        assert(chars_in(q).contains(t[j]));
                    } else {
                        assert(before[k] == x);
                        assert(before.contains(x));
                        if !old(codes)@.contains(x) {
                            let c = choose|c: char| chars_in(p).contains(c) && c as u32 == x;
                            let (a, b) = choose|a: int, b: int| 0 <= a < p.len() && 0 <= b < p[a]@.len() && #[trigger] p[a]@[b] == c;
                            assert(q[a] == p[a]);
                            assert(chars_in(q).contains(c));
                        }
                    }
                }
                if old(codes)@.contains(x) {
                    let k = choose|k: int| 0 <= k < before.len() && before[k] == x;
                    assert(codes@[k] == x);
                }
                if exists|c: char| chars_in(q).contains(c) && c as u32 == x {
                    let c = choose|c: char| chars_in(q).contains(c) && c as u32 == x;
                    let (a, b) = choose|a: int, b: int| 0 <= a < q.len() && 0 <= b < q[a]@.len() && #[trigger] q[a]@[b] == c;
                    if a < i {
                        assert(p[a] == q[a]);
                        assert(chars_in(p).contains(c));
                        let k = choose|k: int| 0 <= k < before.len() && before[k] == x;
                        assert(codes@[k] == x);
                    } else {
                        assert(codes@[before.len() + b] == t.map_values(|c: char| c as u32)[b]);
                    }
                }
            }
        }
        i = i + 1;
    }
    assert(texts@.take(texts@.len() as int) =~= texts@);
}

impl TextSample {
    /// The distinct characters of the sample's texts, in increasing order.
    pub fn glyphs(&self) -> (s: String)
        ensures
            sorted_chars_of(s@, chars_in(self.content@)),
    {
        let mut codes: Vec<u32> = Vec::new();
        push_texts(&mut codes, &self.content);
        sorted_distinct_chars(&codes, Ghost(chars_in(self.content@)))
    }
}

impl FontStackInfo {
    /// The distinct characters of the texts of all samples, in increasing order.
    pub fn glyphs(&self) -> (s: String)
        ensures
            sorted_chars_of(s@, chars_in_samples(self.samples@)),
    {
        let mut codes: Vec<u32> = Vec::new();
        let mut k: usize = 0;
        while k < self.samples.len()
            invariant
                k <= self.samples@.len(),
                forall|x: u32| codes@.contains(x) <==> exists|c: char|
                    chars_in_samples(self.samples@.take(k as int)).contains(c) && c as u32 == x,
            decreases self.samples@.len() - k,
        {
            push_texts(&mut codes, &self.samples[k].content);
            proof {
                let p = self.samples@.take(k as int);
                let q = self.samples@.take(k + 1);
                assert forall|c: char| chars_in_samples(q).contains(c) == (chars_in_samples(p).contains(c)
                    || chars_in(self.samples@[k as int].content@).contains(c)) by {
                    if chars_in_samples(q).contains(c) {
                        let a = choose|a: int| 0 <= a < q.len() && #[trigger] chars_in(q[a].content@).contains(c);
                        if a < k {
                            assert(p[a] == q[a]);
                        }
                    }
                    if chars_in_samples(p).contains(c) {
                        let a = choose|a: int| 0 <= a < p.len() && #[trigger] chars_in(p[a].content@).contains(c);
                        assert(q[a] == p[a]);
                    }
                    if chars_in(self.samples@[k as int].content@).contains(c) {
                        assert(q[k as int] == self.samples@[k as int]);
                    }
                }
                assert forall|x: u32| codes@.contains(x) <==> exists|c: char|
                    chars_in_samples(q).contains(c) && c as u32 == x by {
                    if exists|c: char| chars_in_samples(q).contains(c) && c as u32 == x {
                        let c = choose|c: char| chars_in_samples(q).contains(c) && c as u32 == x;
                        if chars_in_samples(p).contains(c) {
                        } else {
                            assert(chars_in(self.samples@[k as int].content@).contains(c));
                        }
                    }
                    if codes@.contains(x) {
                        if exists|c: char| chars_in_samples(p).contains(c) && c as u32 == x {
                            let c = choose|c: char| chars_in_samples(p).contains(c) && c as u32 == x;
                            assert(chars_in_samples(q).contains(c));
                        } else {
                            let c = choose|c: char| chars_in(self.samples@[k as int].content@).contains(c) && c as u32 == x;
                            assert(chars_in_samples(q).contains(c));
                        }
                    }
                }
            }
            k = k + 1;
        }
        assert(self.samples@.take(self.samples@.len() as int) =~= self.samples@);
        sorted_distinct_chars(&codes, Ghost(chars_in_samples(self.samples@)))
    }
}

/// The text found on the pages of a site, by font stack, in order of the stacks.
pub struct TextInfo {
    pub data: Vec<FontStackInfo>,
}

/// What a sample is kept under: its font stack, its styles and its weights.
pub type SampleKey = (Seq<Seq<char>>, StyleSet, Seq<i32>);

/// A sample's key and its texts.
pub type SampleRow = (SampleKey, Seq<Seq<char>>);

/// The rank of a set of styles: the bits of `Normal` (lowest), `Italics` and `Oblique`, as a
/// set of flags orders.
pub open spec fn style_rank(s: StyleSet) -> int {
    (if s.normal { 1int } else { 0int }) + (if s.italics { 2int } else { 0int }) + (if s.oblique { 4int } else { 0int })
}

/// The order of sample keys: by font stack, then by styles, then by weights.
pub open spec fn key_lt() -> spec_fn(SampleKey, SampleKey) -> bool {
    |a: SampleKey, b: SampleKey| strs_lt()(a.0, b.0) || (a.0 == b.0 && (style_rank(a.1) < style_rank(b.1)
        || (a.1 == b.1 && i32s_lt()(a.2, b.2))))
}

/// The order of sample keys is a strict total order.
pub proof fn lemma_key_order()
    ensures
        strict_total_ordering(key_lt()),
{
    lemma_orders_strict_total();
    let r = key_lt();
    assert forall|a: SampleKey, b: SampleKey| style_rank(a.1) == style_rank(b.1) implies a.1 == b.1 by {}
    assert forall|x: SampleKey| #[trigger] r(x, x) == false by {}
    assert forall|x: SampleKey, y: SampleKey| #[trigger] r(x, y) && #[trigger] r(y, x) implies x == y by {
        assert(!(strs_lt()(x.0, y.0) && strs_lt()(y.0, x.0)));
        assert(!(i32s_lt()(x.2, y.2) && i32s_lt()(y.2, x.2)));
    }
    assert forall|x: SampleKey, y: SampleKey, z: SampleKey| #[trigger] r(x, y) && #[trigger] r(y, z) implies r(x, z) by {
        if strs_lt()(x.0, y.0) && strs_lt()(y.0, z.0) {
            assert(strs_lt()(x.0, z.0));
        }
        if i32s_lt()(x.2, y.2) && i32s_lt()(y.2, z.2) {
            assert(i32s_lt()(x.2, z.2));
        }
    }
    assert forall|x: SampleKey, y: SampleKey| x != y implies #[trigger] r(x, y) || #[trigger] r(y, x) by {
        if x.0 != y.0 {
            assert(strs_lt()(x.0, y.0) || strs_lt()(y.0, x.0));
        } else if x.1 != y.1 {
        } else {
            assert(x.2 != y.2);
            assert(i32s_lt()(x.2, y.2) || i32s_lt()(y.2, x.2));
        }
    }
}

/// The keys of rows.
pub open spec fn row_keys(l: Seq<SampleRow>) -> Seq<SampleKey> {
    l.map_values(|r: SampleRow| r.0)
}

/// Rows in increasing order of their keys, each holding its texts in increasing order.
pub open spec fn rows_sorted(l: Seq<SampleRow>) -> bool {
    &&& sorted_by(row_keys(l), key_lt())
    &&& forall|i: int| 0 <= i < l.len() ==> sorted_by(#[trigger] l[i].1, str_lt())
}

/// The rows as a map from keys to sets of texts.
pub open spec fn rows_map(l: Seq<SampleRow>) -> Map<SampleKey, Set<Seq<char>>> {
    Map::new(
        |k: SampleKey| exists|i: int| 0 <= i < l.len() && #[trigger] l[i].0 == k,
        |k: SampleKey| l[choose|i: int| 0 <= i < l.len() && #[trigger] l[i].0 == k].1.to_set(),
    )
}

/// The texts kept under `k`; none where there is no such sample.
pub open spec fn texts_under(m: Map<SampleKey, Set<Seq<char>>>, k: SampleKey) -> Set<Seq<char>> {
    if m.contains_key(k) { m[k] } else { Set::empty() }
}

/// No key occurs twice among the rows.
pub open spec fn distinct_keys(l: Seq<SampleRow>) -> bool {
    forall|i: int, j: int| 0 <= i < l.len() && 0 <= j < l.len() && i != j ==> l[i].0 != l[j].0
}

proof fn lemma_sorted_rows_distinct(l: Seq<SampleRow>)
    requires
        rows_sorted(l),
    ensures
        distinct_keys(l),
{
    lemma_key_order();
    assert forall|i: int, j: int| 0 <= i < l.len() && 0 <= j < l.len() && i != j implies l[i].0 != l[j].0 by {
        lemma_sorted_distinct(row_keys(l), key_lt(), i, j);
    }
}

/// The map of rows that hold `k` at `p` gives the texts at `p`.
proof fn lemma_rows_map_at(l: Seq<SampleRow>, p: int)
    requires
        distinct_keys(l),
        0 <= p < l.len(),
    ensures
        rows_map(l).contains_key(l[p].0),
        rows_map(l)[l[p].0] == l[p].1.to_set(),
{
    let k = l[p].0;
    assert(l[p].0 == k);
    let i = choose|i: int| 0 <= i < l.len() && #[trigger] l[i].0 == k;
    assert(i == p);
}

/// Inserting a row with a new key adds that key to the map.
proof fn lemma_rows_map_insert(l: Seq<SampleRow>, p: int, row: SampleRow)
    requires
        distinct_keys(l),
        distinct_keys(l.insert(p, row)),
        0 <= p <= l.len(),
    ensures
        rows_map(l.insert(p, row)) == rows_map(l).insert(row.0, row.1.to_set()),
{
    let n = l.insert(p, row);
    l.insert_ensures(p, row);
    let a = rows_map(n);
    let b = rows_map(l).insert(row.0, row.1.to_set());
    assert forall|k: SampleKey| a.contains_key(k) <==> b.contains_key(k) by {
        if a.contains_key(k) {
            let i = choose|i: int| 0 <= i < n.len() && #[trigger] n[i].0 == k;
            if i < p {
                assert(l[i].0 == k);
            } else if i > p {
                assert(l[i - 1].0 == k);
            }
        }
        if b.contains_key(k) && k != row.0 {
            let i = choose|i: int| 0 <= i < l.len() && #[trigger] l[i].0 == k;
            if i < p {
                assert(n[i].0 == k);
            } else {
                assert(n[i + 1].0 == k);
            }
        }
        if k == row.0 {
            assert(n[p].0 == k);
        }
    }
    assert(a.dom() =~= b.dom());
    assert forall|k: SampleKey| a.contains_key(k) implies a[k] == b[k] by {
        let i = choose|i: int| 0 <= i < n.len() && #[trigger] n[i].0 == k;
        lemma_rows_map_at(n, i);
        if i < p {
            lemma_rows_map_at(l, i);
            assert(n[i] == l[i]);
        } else if i > p {
            lemma_rows_map_at(l, i - 1);
            assert(n[i] == l[i - 1]);
        }
    }
    assert(a =~= b);
}

/// Replacing the texts of the row at `p` replaces them in the map.
proof fn lemma_rows_map_update(l: Seq<SampleRow>, p: int, row: SampleRow)
    requires
        distinct_keys(l),
        0 <= p < l.len(),
        l[p].0 == row.0,
    ensures
        rows_map(l.update(p, row)) == rows_map(l).insert(row.0, row.1.to_set()),
{
    let n = l.update(p, row);
    assert(distinct_keys(n));
    let a = rows_map(n);
    let b = rows_map(l).insert(row.0, row.1.to_set());
    assert forall|k: SampleKey| a.contains_key(k) <==> b.contains_key(k) by {
        if a.contains_key(k) {
            let i = choose|i: int| 0 <= i < n.len() && #[trigger] n[i].0 == k;
            assert(l[i].0 == k);
        }
        if b.contains_key(k) && k != row.0 {
            let i = choose|i: int| 0 <= i < l.len() && #[trigger] l[i].0 == k;
            assert(n[i].0 == k);
        }
        if k == row.0 {
            assert(n[p].0 == k);
        }
    }
    assert(a.dom() =~= b.dom());
    assert forall|k: SampleKey| a.contains_key(k) implies a[k] == b[k] by {
        let i = choose|i: int| 0 <= i < n.len() && #[trigger] n[i].0 == k;
        lemma_rows_map_at(n, i);
        if i != p {
            lemma_rows_map_at(l, i);
        }
    }
    assert(a =~= b);
}

/// Whether `push_sample` adds to the sample under `k`: its stack is one of `stacks`, its styles
/// are `styles`, and its weights are `weights` in increasing order, each once.
pub open spec fn sample_hit(k: SampleKey, stacks: Set<Seq<Seq<char>>>, styles: StyleSet, weights: Set<i32>) -> bool {
    &&& stacks.contains(k.0)
    &&& k.1 == styles
    &&& sorted_by(k.2, i32_lt())
    &&& k.2.to_set() == weights
}

/// The row of a sample of a stack.
pub open spec fn sample_row(stack: Seq<Seq<char>>, s: TextSample) -> SampleRow {
    ((stack, s.used_styles, s.used_weights@), string_views(s.content@))
}

/// The rows of the samples of a stack.
pub open spec fn stack_rows(stack: Seq<Seq<char>>, samples: Seq<TextSample>) -> Seq<SampleRow> {
    samples.map_values(|s: TextSample| sample_row(stack, s))
}

/// The rows of all samples of all stacks, stack after stack.
pub open spec fn info_rows(data: Seq<FontStackInfo>) -> Seq<SampleRow>
    decreases data.len(),
{
    if data.len() == 0 {
        Seq::empty()
    } else {
        info_rows(data.drop_last()) + stack_rows(string_views(data.last().stack@), data.last().samples@)
    }
}

/// The stacks of the gathered text.
pub open spec fn info_stacks(data: Seq<FontStackInfo>) -> Seq<Seq<Seq<char>>> {
    data.map_values(|f: FontStackInfo| string_views(f.stack@))
}

/// One sample being gathered: its key and its texts.
struct SampleEntry {
    stack: Vec<String>,
    styles: StyleSet,
    weights: Vec<i32>,
    texts: Vec<String>,
}

spec fn entry_row(e: SampleEntry) -> SampleRow {
    ((string_views(e.stack@), e.styles, e.weights@), string_views(e.texts@))
}

spec fn entry_rows(s: Seq<SampleEntry>) -> Seq<SampleRow> {
    s.map_values(|e: SampleEntry| entry_row(e))
}

/// Compares the key of an entry with a key.
fn compare_key(e: &SampleEntry, stack: &Vec<String>, styles: StyleSet, weights: &Vec<i32>) -> (r: Comparison)
    ensures
        compares_as(r, entry_row(*e).0, (string_views(stack@), styles, weights@), key_lt()),
{
    proof {
        lemma_key_order();
    }
    match compare_string_lists(&e.stack, stack) {
        Comparison::Less => Comparison::Less,
        Comparison::Greater => Comparison::Greater,
        Comparison::Equal => {
            let ra = style_bits(e.styles);
            let rb = style_bits(styles);
            if ra < rb {
                Comparison::Less
            } else if ra > rb {
                Comparison::Greater
            } else {
                compare_i32_lists(&e.weights, weights)
            }
        },
    }
}

/// The rank of a set of styles, as a byte.
fn style_bits(s: StyleSet) -> (r: u8)
    ensures
        r == style_rank(s),
{
    let a: u8 = if s.normal { 1 } else { 0 };
    let b: u8 = if s.italics { 2 } else { 0 };
    let c: u8 = if s.oblique { 4 } else { 0 };
    a + b + c
}

/// The styles of a sample, from the font styles that reach its element.
pub open spec fn style_set(styles: Seq<ParsedFontStyle>) -> StyleSet {
    StyleSet {
        normal: styles.contains(ParsedFontStyle::Normal),
        italics: styles.contains(ParsedFontStyle::Italic),
        oblique: styles.contains(ParsedFontStyle::Oblique),
    }
}

/// The texts of a list of stacks.
pub open spec fn stack_views(v: Seq<Vec<String>>) -> Seq<Seq<Seq<char>>> {
    v.map_values(|s: Vec<String>| string_views(s@))
}

/// The non-empty texts of a list.
pub open spec fn nonempty_texts(v: Seq<String>) -> Set<Seq<char>> {
    string_views(v).to_set().filter(|t: Seq<char>| t.len() > 0)
}

/// Gathers the text of a page's elements by font stack, styles and weights.
pub struct TextInfoBuilder {
    entries: Vec<SampleEntry>,
}

impl TextInfoBuilder {
    /// The samples gathered so far, as rows in increasing order of their keys.
    pub closed spec fn listing(&self) -> Seq<SampleRow> {
        entry_rows(self.entries@)
    }

    /// The rows are in increasing order of their keys, and each row's texts in increasing order.
    pub closed spec fn well_formed(&self) -> bool {
        rows_sorted(self.listing())
    }

    /// Nothing gathered.
    pub fn new() -> (b: Self)
        ensures
            b.well_formed(),
            b.listing() == Seq::<SampleRow>::empty(),
    {
        let b = TextInfoBuilder { entries: Vec::new() };
        assert(b.listing() =~= Seq::<SampleRow>::empty());
        b
    }

    /// Records the texts of an element: under each of the font stacks that reach it, in the
    /// sample of its styles and weights, the non-empty texts of `additional_text`.
    pub fn push_sample(
        &mut self,
        font_stacks: &Vec<Vec<String>>,
        font_styles: &Vec<ParsedFontStyle>,
        font_weights: &Vec<i32>,
        additional_text: &Vec<String>,
    )
        requires
            old(self).well_formed(),
        ensures
            final(self).well_formed(),
            forall|k: SampleKey| #[trigger] rows_map(final(self).listing()).contains_key(k) <==> (
                rows_map(old(self).listing()).contains_key(k)
                || sample_hit(k, stack_views(font_stacks@).to_set(), style_set(font_styles@), font_weights@.to_set())),
            forall|k: SampleKey| #[trigger] rows_map(final(self).listing()).contains_key(k) ==>
                rows_map(final(self).listing())[k] == if sample_hit(k, stack_views(font_stacks@).to_set(),
                    style_set(font_styles@), font_weights@.to_set()) {
                    texts_under(rows_map(old(self).listing()), k).union(nonempty_texts(additional_text@))
                } else {
                    rows_map(old(self).listing())[k]
                },
    {
        proof {
            lemma_orders_strict_total();
        }
        let mut normal = false;
        let mut italics = false;
        let mut oblique = false;
        let mut i: usize = 0;
        while i < font_styles.len()
            invariant
                i <= font_styles@.len(),
                normal == font_styles@.take(i as int).contains(ParsedFontStyle::Normal),
                italics == font_styles@.take(i as int).contains(ParsedFontStyle::Italic),
                oblique == font_styles@.take(i as int).contains(ParsedFontStyle::Oblique),
            decreases font_styles@.len() - i,
        {
            let ghost t = font_styles@.take(i as int);
            assert(font_styles@.take(i + 1) =~= t.push(font_styles@[i as int]));
            match font_styles[i] {
                ParsedFontStyle::Normal => normal = true,
                ParsedFontStyle::Italic => italics = true,
                ParsedFontStyle::Oblique => oblique = true,
            }
            proof {
                let u = font_styles@.take(i + 1);
                assert forall|x: ParsedFontStyle| u.contains(x) <==> (t.contains(x) || x == font_styles@[i as int]) by {
                    if u.contains(x) {
                        let j = choose|j: int| 0 <= j < u.len() && u[j] == x;
                        if j < i {
                            assert(t[j] == x);
                        }
                    }
                    if t.contains(x) {
                        let j = choose|j: int| 0 <= j < t.len() && t[j] == x;
                        assert(u[j] == x);
                    }
                    if x == font_styles@[i as int] {
                        assert(u[i as int] == x);
                    }
                }
            }
            i = i + 1;
        }
        assert(font_styles@.take(font_styles@.len() as int) =~= font_styles@);
        let styles = StyleSet { normal, italics, oblique };
        let mut weights: Vec<i32> = Vec::new();
        let mut j: usize = 0;
        while j < font_weights.len()
            invariant
                j <= font_weights@.len(),
                sorted_by(weights@, i32_lt()),
                weights@.to_set() == font_weights@.take(j as int).to_set(),
            decreases font_weights@.len() - j,
        {
            insert_sorted_i32(&mut weights, font_weights[j]);
            proof {
                assert(font_weights@.take(j + 1) =~= font_weights@.take(j as int).push(font_weights@[j as int]));
                crate::sort::lemma_push_to_set(font_weights@.take(j as int), font_weights@[j as int]);
            }
            j = j + 1;
        }
        assert(font_weights@.take(font_weights@.len() as int) =~= font_weights@);
        let mut content: Vec<String> = Vec::new();
        let mut q: usize = 0;
        while q < additional_text.len()
            invariant
                q <= additional_text@.len(),
                sorted_by(string_views(content@), str_lt()),
                string_views(content@).to_set() == nonempty_texts(additional_text@.take(q as int)),
            decreases additional_text@.len() - q,
        {
            let ghost t = additional_text@.take(q as int);
            let ghost u = additional_text@.take(q + 1);
            assert(string_views(u) =~= string_views(t).push(additional_text@[q as int]@));
            if !additional_text[q].as_str().is_empty() {
                insert_sorted_string(&mut content, additional_text[q].as_str());
            }
            proof {
                crate::sort::lemma_push_to_set(string_views(t), additional_text@[q as int]@);
                assert(string_views(content@).to_set() =~= nonempty_texts(u));
            }
            q = q + 1;
        }
        assert(additional_text@.take(additional_text@.len() as int) =~= additional_text@);
        let ghost m0 = rows_map(self.listing());
        let ghost w = weights@;
        let ghost stacks = stack_views(font_stacks@);
        let mut r: usize = 0;
        while r < font_stacks.len()
            invariant
                r <= font_stacks@.len(),
                self.well_formed(),
                stacks == stack_views(font_stacks@),
                sorted_by(w, i32_lt()),
                w.to_set() == font_weights@.to_set(),
                w == weights@,
                styles == style_set(font_styles@),
                sorted_by(string_views(content@), str_lt()),
                string_views(content@).to_set() == nonempty_texts(additional_text@),
                m0 == rows_map(old(self).listing()),
                forall|k: SampleKey| #[trigger] rows_map(self.listing()).contains_key(k) <==> (m0.contains_key(k)
                    || (stacks.take(r as int).contains(k.0) && k.1 == styles && k.2 == w)),
                forall|k: SampleKey| #[trigger] rows_map(self.listing()).contains_key(k) ==>
                    rows_map(self.listing())[k] == if stacks.take(r as int).contains(k.0) && k.1 == styles && k.2 == w {
                        texts_under(m0, k).union(nonempty_texts(additional_text@))
                    } else {
                        m0[k]
                    },
            decreases font_stacks@.len() - r,
        {
            let ghost before = rows_map(self.listing());
            self.add_row(&font_stacks[r], styles, &weights, &content);
            proof {
                let sv = string_views(font_stacks@[r as int]@);
                assert(stacks[r as int] == sv);
                assert(stacks.take(r + 1) =~= stacks.take(r as int).push(sv));
                assert forall|x: Seq<Seq<char>>| stacks.take(r + 1).contains(x) <==> (stacks.take(r as int).contains(x) || x == sv) by {
                    let a = stacks.take(r as int);
                    let b = stacks.take(r + 1);
                    if b.contains(x) {
                        let j = choose|j: int| 0 <= j < b.len() && b[j] == x;
                        if j < r {
                            assert(a[j] == x);
                        }
                    }
                    if a.contains(x) {
                        let j = choose|j: int| 0 <= j < a.len() && a[j] == x;
                        assert(b[j] == x);
                    }
                    if x == sv {
                        assert(b[r as int] == x);
                    }
                }
            }
            r = r + 1;
        }
        proof {
            assert(stacks.take(font_stacks@.len() as int) =~= stacks);
            assert forall|k: SampleKey| sample_hit(k, stacks.to_set(), style_set(font_styles@), font_weights@.to_set())
                <==> (stacks.contains(k.0) && k.1 == styles && k.2 == w) by {
                if sorted_by(k.2, i32_lt()) && k.2.to_set() == font_weights@.to_set() {
                    crate::order::lemma_sorted_unique(k.2, w, i32_lt());
                }
            }
        }
    }

    /// The gathered text: stacks in increasing order, each with its samples in increasing order
    /// of styles and weights, each with its texts in increasing order.
    pub fn build(&self) -> (info: TextInfo)
        requires
            self.well_formed(),
        ensures
            info_rows(info.data@) == self.listing(),
            forall|i: int| 0 <= i < info.data@.len() ==> #[trigger] info.data@[i].samples@.len() > 0,
            sorted_by(info_stacks(info.data@), strs_lt()),
    {
        proof {
            lemma_orders_strict_total();
            lemma_key_order();
        }
        let ghost l = self.listing();
        let mut out: Vec<FontStackInfo> = Vec::new();
        let mut cur_stack: Vec<String> = Vec::new();
        let mut cur_samples: Vec<TextSample> = Vec::new();
        let mut i: usize = 0;
        while i < self.entries.len()
            invariant
                i <= l.len(),
                l == self.listing(),
                l.len() == self.entries@.len(),
                rows_sorted(l),
                strict_total_ordering(strs_lt()),
                strict_total_ordering(key_lt()),
                i == 0 ==> out@.len() == 0 && cur_samples@.len() == 0,
                i > 0 ==> cur_samples@.len() > 0 && string_views(cur_stack@) == l[i - 1].0.0,
                info_rows(out@) + stack_rows(string_views(cur_stack@), cur_samples@) == l.take(i as int),
                forall|j: int| 0 <= j < out@.len() ==> #[trigger] out@[j].samples@.len() > 0,
                sorted_by(info_stacks(out@), strs_lt()),
                forall|j: int| 0 <= j < out@.len() ==> strs_lt()(#[trigger] info_stacks(out@)[j], string_views(cur_stack@)),
            decreases l.len() - i,
        {
            let e = &self.entries[i];
            assert(l[i as int] == entry_row(self.entries@[i as int]));
            let sample = TextSample {
                used_styles: e.styles,
                used_weights: copy_i32s(&e.weights),
                content: copy_strings(&e.texts),
            };
            let same = i > 0 && compare_string_lists(&e.stack, &cur_stack) == Comparison::Equal;
            let ghost prev_rows = stack_rows(string_views(cur_stack@), cur_samples@);
            if same {
                cur_samples.push(sample);
                proof {
                    assert(stack_rows(string_views(cur_stack@), cur_samples@) =~= prev_rows.push(l[i as int]));
                    assert(l.take(i + 1) =~= l.take(i as int).push(l[i as int]));
                }
            } else {
                proof {
                    if i > 0 {
                        assert(key_lt()(row_keys(l)[i - 1], row_keys(l)[i as int]));
                        assert(strs_lt()(string_views(cur_stack@), l[i as int].0.0));
                    }
                }
                if i > 0 {
                    let ghost before = out@;
                    let f = FontStackInfo { stack: cur_stack, samples: cur_samples };
                    out.push(f);
                    proof {
                        assert(out@.drop_last() =~= before);
                        assert(info_stacks(out@) =~= info_stacks(before).push(string_views(f.stack@)));
                        crate::order::lemma_push_sorted(info_stacks(before), string_views(f.stack@), strs_lt());
                    }
                }
                cur_stack = copy_strings(&e.stack);
                cur_samples = Vec::new();
                cur_samples.push(sample);
                proof {
                    assert(stack_rows(string_views(cur_stack@), cur_samples@) =~= seq![l[i as int]]);
                    assert(l.take(i + 1) =~= l.take(i as int).push(l[i as int]));
                    assert forall|j: int| 0 <= j < out@.len() implies strs_lt()(#[trigger] info_stacks(out@)[j], string_views(cur_stack@)) by {
                        if j < out@.len() - 1 {
                            assert(strs_lt()(info_stacks(out@)[j], info_stacks(out@)[out@.len() - 1]));
                        }
                    }
                }
            }
            i = i + 1;
        }
        if i > 0 {
            let ghost before = out@;
            assert(forall|j: int| 0 <= j < before.len() ==> #[trigger] before[j].samples@.len() > 0);
            let f = FontStackInfo { stack: cur_stack, samples: cur_samples };
            let ghost fv = f;
            assert(fv.samples@.len() > 0);
            out.push(f);
            proof {
                assert(out@ == before.push(fv));
                assert(out@[before.len() as int].samples@.len() > 0);
                assert(out@.drop_last() =~= before);
                assert(info_stacks(out@) =~= info_stacks(before).push(string_views(f.stack@)));
                crate::order::lemma_push_sorted(info_stacks(before), string_views(f.stack@), strs_lt());
                assert forall|j: int| 0 <= j < out@.len() implies #[trigger] out@[j].samples@.len() > 0 by {
                    if j < before.len() {
                        assert(out@[j] == before[j]);
                        assert(before[j].samples@.len() > 0);
                    } else {
                        assert(j == before.len());
                    }
                }
            }
        }
        proof {
            assert(l.take(l.len() as int) =~= l);
        }
        TextInfo { data: out }
    }

    /// Adds the texts `content` (sorted, each once) to the sample under the given key, making
    /// the sample where there is none yet.
    fn add_row(&mut self, stack: &Vec<String>, styles: StyleSet, weights: &Vec<i32>, content: &Vec<String>)
        requires
            old(self).well_formed(),
            sorted_by(string_views(content@), str_lt()),
        ensures
            final(self).well_formed(),
            rows_map(final(self).listing()) == rows_map(old(self).listing()).insert(
                (string_views(stack@), styles, weights@),
                texts_under(rows_map(old(self).listing()), (string_views(stack@), styles, weights@))
                    .union(string_views(content@).to_set())),
    {
        proof {
            lemma_key_order();
            lemma_orders_strict_total();
        }
        let ghost k: SampleKey = (string_views(stack@), styles, weights@);
        let ghost l = self.listing();
        let ghost m = rows_map(l);
        proof {
            lemma_sorted_rows_distinct(l);
        }
        let mut p: usize = 0;
        let mut found = false;
        while p < self.entries.len()
            invariant_except_break
                !found,
            invariant
                p <= l.len(),
                k == (string_views(stack@), styles, weights@),
                l == entry_rows(self.entries@),
                l.len() == self.entries@.len(),
                rows_sorted(l),
                strict_total_ordering(key_lt()),
                forall|i: int| 0 <= i < p ==> #[trigger] key_lt()(l[i].0, k),
            ensures
                p <= l.len(),
                l == entry_rows(self.entries@),
                forall|i: int| 0 <= i < p ==> #[trigger] key_lt()(l[i].0, k),
                found ==> p < l.len() && l[p as int].0 == k,
                !found && p < l.len() ==> key_lt()(k, l[p as int].0),
            decreases l.len() - p,
        {
            assert(l[p as int] == entry_row(self.entries@[p as int]));
            match compare_key(&self.entries[p], stack, styles, weights) {
                Comparison::Less => {
                    assert(key_lt()(l[p as int].0, k));
                },
                Comparison::Equal => {
                    found = true;
                    break;
                },
                Comparison::Greater => {
                    break;
                },
            }
            p = p + 1;
        }
        if found {
            assert(l[p as int] == entry_row(self.entries@[p as int]));
            let mut e = self.entries.remove(p);
            let ghost old_e = e;
            assert(entry_row(old_e) == l[p as int]);
            assert(sorted_by(l[p as int].1, str_lt()));
            assert(string_views(content@.take(0)) =~= Seq::<Seq<char>>::empty());
            assert(string_views(old_e.texts@).to_set().union(string_views(content@.take(0)).to_set())
                =~= string_views(old_e.texts@).to_set());
            let mut i: usize = 0;
            while i < content.len()
                invariant
                    i <= content@.len(),
                    sorted_by(string_views(e.texts@), str_lt()),
                    string_views(e.texts@).to_set() == string_views(old_e.texts@).to_set().union(string_views(content@.take(i as int)).to_set()),
                    e.stack == old_e.stack,
                    e.styles == old_e.styles,
                    e.weights == old_e.weights,
                decreases content@.len() - i,
            {
                insert_sorted_string(&mut e.texts, content[i].as_str());
                proof {
                    assert(string_views(content@.take(i + 1)) =~= string_views(content@.take(i as int)).push(content@[i as int]@));
                    crate::sort::lemma_push_to_set(string_views(content@.take(i as int)), content@[i as int]@);
                    assert(string_views(e.texts@).to_set() =~= string_views(old_e.texts@).to_set().union(string_views(content@.take(i + 1)).to_set()));
                }
                i = i + 1;
            }
            proof {
                assert(content@.take(content@.len() as int) =~= content@);
            }
            let ghost new_e = e;
            self.entries.insert(p, e);
            proof {
                let n = entry_rows(self.entries@);
                assert(self.entries@ =~= old(self).entries@.update(p as int, new_e));
                assert(n =~= l.update(p as int, entry_row(new_e)));
                assert(entry_row(new_e).0 == l[p as int].0);
                lemma_rows_map_update(l, p as int, entry_row(new_e));
                lemma_rows_map_at(l, p as int);
                assert(row_keys(n) =~= row_keys(l));
                assert forall|j: int| 0 <= j < n.len() implies sorted_by(#[trigger] n[j].1, str_lt()) by {
                    if j != p {
                        assert(n[j] == l[j]);
                    }
                }
            }
        } else {
            let ghost before = self.entries@;
            let e = SampleEntry {
                stack: copy_strings(stack),
                styles,
                weights: copy_i32s(weights),
                texts: copy_strings(content),
            };
            self.entries.insert(p, e);
            proof {
                let n = entry_rows(self.entries@);
                assert(n =~= l.insert(p as int, entry_row(e)));
                assert(row_keys(n) =~= row_keys(l).insert(p as int, k));
                lemma_insert_sorted(row_keys(l), p as int, k, key_lt());
                l.insert_ensures(p as int, entry_row(e));
                assert forall|j: int| 0 <= j < n.len() implies sorted_by(#[trigger] n[j].1, str_lt()) by {
                    if j < p {
                        assert(n[j] == l[j]);
                    } else if j > p {
                        assert(n[j] == l[j - 1]);
                    }
                }
                lemma_sorted_rows_distinct(n);
                lemma_rows_map_insert(l, p as int, entry_row(e));
                assert(!m.contains_key(k)) by {
                    if m.contains_key(k) {
                        let i = choose|i: int| 0 <= i < l.len() && #[trigger] l[i].0 == k;
                        if i < p {
                            assert(key_lt()(l[i].0, k));
                        } else {
                            if i > p {
                                assert(key_lt()(row_keys(l)[p as int], row_keys(l)[i]));
                            }
                            assert(key_lt()(k, l[i].0));
                        }
                    }
                }
                assert(texts_under(m, k).union(string_views(content@).to_set()) =~= string_views(content@).to_set());
            }
        }
    }
}

} // verus!
