//! The fonts that the text of a site asks for: each family of each font stack, in each style and
//! weight in which a sample of the stack's text is set. Those that the loaded fonts do not serve
//! are fetched.
use vstd::prelude::*;
use crate::font_info::{FontStackInfo, StyleSet, TextSample, TextSampleStyle};

verus! {

/// A font asked for: a family, a style and a weight.
pub struct FontRequest {
    pub family: String,
    pub style: TextSampleStyle,
    pub weight: i32,
}

/// A request as plain values.
pub type RequestView = (Seq<char>, TextSampleStyle, i32);

/// The views of requests.
pub open spec fn requests_view(v: Seq<FontRequest>) -> Seq<RequestView> {
    v.map_values(|r: FontRequest| (r.family@, r.style, r.weight))
}

/// The styles of a set, in the order a set of flags lists them: normal, italics, oblique.
pub open spec fn style_list(s: StyleSet) -> Seq<TextSampleStyle> {
    (if s.normal { seq![TextSampleStyle::Normal] } else { Seq::empty() })
        + (if s.italics { seq![TextSampleStyle::Italics] } else { Seq::empty() })
        + (if s.oblique { seq![TextSampleStyle::Oblique] } else { Seq::empty() })
}

/// A family in one style, in each of the weights.
pub open spec fn weight_requests(family: Seq<char>, style: TextSampleStyle, weights: Seq<i32>) -> Seq<RequestView> {
    weights.map_values(|w: i32| (family, style, w))
}

/// A family in each of the styles, each in each of the weights.
pub open spec fn style_requests(family: Seq<char>, styles: Seq<TextSampleStyle>, weights: Seq<i32>) -> Seq<RequestView>
    decreases styles.len(),
{
    if styles.len() == 0 {
        Seq::empty()
    } else {
        style_requests(family, styles.drop_last(), weights) + weight_requests(family, styles.last(), weights)
    }
}

/// A family in the styles and weights of each sample.
pub open spec fn sample_requests(family: Seq<char>, samples: Seq<TextSample>) -> Seq<RequestView>
    decreases samples.len(),
{
    if samples.len() == 0 {
        Seq::empty()
    } else {
        sample_requests(family, samples.drop_last())
            + style_requests(family, style_list(samples.last().used_styles), samples.last().used_weights@)
    }
}

/// Each family of a stack, in the styles and weights of each sample.
pub open spec fn family_requests(families: Seq<String>, samples: Seq<TextSample>) -> Seq<RequestView>
    decreases families.len(),
{
    if families.len() == 0 {
        Seq::empty()
    } else {
        family_requests(families.drop_last(), samples) + sample_requests(families.last()@, samples)
    }
}

/// The requests of all stacks, stack after stack.
pub open spec fn stack_requests(stacks: Seq<FontStackInfo>) -> Seq<RequestView>
    decreases stacks.len(),
{
    if stacks.len() == 0 {
        Seq::empty()
    } else {
        stack_requests(stacks.drop_last()) + family_requests(stacks.last().stack@, stacks.last().samples@)
    }
}

fn push_weights(out: &mut Vec<FontRequest>, family: &String, style: TextSampleStyle, weights: &Vec<i32>)
    ensures
        requests_view(final(out)@) == requests_view(old(out)@) + weight_requests(family@, style, weights@),
{
    let ghost start = requests_view(out@);
    let mut i: usize = 0;
    while i < weights.len()
        invariant
            i <= weights@.len(),
            requests_view(out@) == start + weight_requests(family@, style, weights@.take(i as int)),
        decreases weights@.len() - i,
    {
        let ghost before = out@;
        out.push(FontRequest { family: family.clone(), style, weight: weights[i] });
        proof {
            assert(out@ == before.push(out@.last()));
            assert(requests_view(out@) =~= requests_view(before).push((family@, style, weights@[i as int])));
            assert(weight_requests(family@, style, weights@.take(i + 1))
                =~= weight_requests(family@, style, weights@.take(i as int)).push((family@, style, weights@[i as int])));
        }
        i = i + 1;
    }
    assert(weights@.take(weights@.len() as int) =~= weights@);
}

fn push_styles(out: &mut Vec<FontRequest>, family: &String, styles: StyleSet, weights: &Vec<i32>)
    ensures
        requests_view(final(out)@) == requests_view(old(out)@) + style_requests(family@, style_list(styles), weights@),
{
    let ghost start = requests_view(out@);
    let ghost sl = style_list(styles);
    let ghost mut done: Seq<TextSampleStyle> = Seq::empty();
    assert(requests_view(out@) =~= start + style_requests(family@, done, weights@));
    if styles.normal {
        push_weights(out, family, TextSampleStyle::Normal, weights);
        proof {
            let d = done.push(TextSampleStyle::Normal);
            assert(d.drop_last() =~= done);
            assert(requests_view(out@) =~= start + style_requests(family@, d, weights@));
            done = d;
        }
    }
    if styles.italics {
        push_weights(out, family, TextSampleStyle::Italics, weights);
        proof {
            let d = done.push(TextSampleStyle::Italics);
            assert(d.drop_last() =~= done);
            assert(requests_view(out@) =~= start + style_requests(family@, d, weights@));
            done = d;
        }
    }
    if styles.oblique {
        push_weights(out, family, TextSampleStyle::Oblique, weights);
        proof {
            let d = done.push(TextSampleStyle::Oblique);
            assert(d.drop_last() =~= done);
            assert(requests_view(out@) =~= start + style_requests(family@, d, weights@));
            done = d;
        }
    }
    assert(done =~= sl);
}

fn push_samples(out: &mut Vec<FontRequest>, family: &String, samples: &Vec<TextSample>)
    ensures
        requests_view(final(out)@) == requests_view(old(out)@) + sample_requests(family@, samples@),
{
    let ghost start = requests_view(out@);
    let mut i: usize = 0;
    while i < samples.len()
        invariant
            i <= samples@.len(),
            requests_view(out@) == start + sample_requests(family@, samples@.take(i as int)),
        decreases samples@.len() - i,
    {
        push_styles(out, family, samples[i].used_styles, &samples[i].used_weights);
        assert(samples@.take(i + 1).drop_last() =~= samples@.take(i as int));
        i = i + 1;
    }
    assert(samples@.take(samples@.len() as int) =~= samples@);
}

fn push_families(out: &mut Vec<FontRequest>, families: &Vec<String>, samples: &Vec<TextSample>)
    ensures
        requests_view(final(out)@) == requests_view(old(out)@) + family_requests(families@, samples@),
{
    let ghost start = requests_view(out@);
    let mut i: usize = 0;
    while i < families.len()
        invariant
            i <= families@.len(),
            requests_view(out@) == start + family_requests(families@.take(i as int), samples@),
        decreases families@.len() - i,
    {
        push_samples(out, &families[i], samples);
        assert(families@.take(i + 1).drop_last() =~= families@.take(i as int));
        i = i + 1;
    }
    assert(families@.take(families@.len() as int) =~= families@);
}

/// The fonts that the text of a site asks for, in order: for each stack, each family of it, each
/// sample of the stack, each style of the sample, each weight of the sample. A font may be asked
/// for more than once.
pub fn font_requests(stacks: &Vec<FontStackInfo>) -> (r: Vec<FontRequest>)
    ensures
        requests_view(r@) == stack_requests(stacks@),
{
    let mut out: Vec<FontRequest> = Vec::new();
    let mut i: usize = 0;
    assert(requests_view(out@) =~= Seq::<RequestView>::empty());
    while i < stacks.len()
        invariant
            i <= stacks@.len(),
            requests_view(out@) == stack_requests(stacks@.take(i as int)),
        decreases stacks@.len() - i,
    {
        push_families(&mut out, &stacks[i].stack, &stacks[i].samples);
        assert(stacks@.take(i + 1).drop_last() =~= stacks@.take(i as int));
        i = i + 1;
    }
    assert(stacks@.take(stacks@.len() as int) =~= stacks@);
    out
}

/// The sample's text is set in `style`.
pub open spec fn style_used(s: StyleSet, style: TextSampleStyle) -> bool {
    match style {
        TextSampleStyle::Normal => s.normal,
        TextSampleStyle::Italics => s.italics,
        TextSampleStyle::Oblique => s.oblique,
    }
}

/// The sample asks for the style and weight of `r`.
pub open spec fn sample_asks(s: TextSample, r: RequestView) -> bool {
    style_used(s.used_styles, r.1) && s.used_weights@.contains(r.2)
}

/// Some sample asks for the style and weight of `r`.
pub open spec fn samples_ask(samples: Seq<TextSample>, r: RequestView) -> bool {
    exists|k: int| 0 <= k < samples.len() && sample_asks(#[trigger] samples[k], r)
}

/// The stack names the family of `r`, and one of its samples asks for the style and weight.
pub open spec fn stack_asks(f: FontStackInfo, r: RequestView) -> bool {
    &&& exists|j: int| 0 <= j < f.stack@.len() && (#[trigger] f.stack@[j])@ == r.0
    &&& samples_ask(f.samples@, r)
}

proof fn lemma_concat_contains<A>(a: Seq<A>, b: Seq<A>, x: A)
    ensures
        (a + b).contains(x) <==> a.contains(x) || b.contains(x),
{
    if (a + b).contains(x) {
        let i = choose|i: int| 0 <= i < (a + b).len() && (a + b)[i] == x;
        if i >= a.len() {
            assert(b[i - a.len()] == x);
        }
    }
    if a.contains(x) {
        let i = choose|i: int| 0 <= i < a.len() && a[i] == x;
        assert((a + b)[i] == x);
    }
    if b.contains(x) {
        let i = choose|i: int| 0 <= i < b.len() && b[i] == x;
        assert((a + b)[a.len() + i] == x);
    }
}

/// The styles listed for a set are exactly those it holds, each once.
pub proof fn law_style_list(s: StyleSet, style: TextSampleStyle)
    ensures
        style_list(s).contains(style) <==> style_used(s, style),
        style_list(s).no_duplicates(),
{
    let a = if s.normal { seq![TextSampleStyle::Normal] } else { Seq::<TextSampleStyle>::empty() };
    let b = if s.italics { seq![TextSampleStyle::Italics] } else { Seq::<TextSampleStyle>::empty() };
    let c = if s.oblique { seq![TextSampleStyle::Oblique] } else { Seq::<TextSampleStyle>::empty() };
    lemma_concat_contains(a + b, c, style);
    lemma_concat_contains(a, b, style);
    if s.normal { assert(a.contains(TextSampleStyle::Normal) == true) by { assert(a[0] == TextSampleStyle::Normal); } }
    if s.italics { assert(b[0] == TextSampleStyle::Italics); }
    if s.oblique { assert(c[0] == TextSampleStyle::Oblique); }
    let l = style_list(s);
    assert forall|i: int, j: int| 0 <= i < l.len() && 0 <= j < l.len() && i != j implies l[i] != l[j] by {
        let ab = a + b;
        if i < ab.len() && j < ab.len() {
            if i < a.len() && j >= a.len() { assert(l[i] == a[i] && l[j] == b[j - a.len()]); }
            if j < a.len() && i >= a.len() { assert(l[j] == a[j] && l[i] == b[i - a.len()]); }
        } else if i >= ab.len() && j < ab.len() {
            assert(l[i] == c[i - ab.len()]);
            if j < a.len() { assert(l[j] == a[j]); } else { assert(l[j] == b[j - a.len()]); }
        } else if j >= ab.len() && i < ab.len() {
            assert(l[j] == c[j - ab.len()]);
            if i < a.len() { assert(l[i] == a[i]); } else { assert(l[i] == b[i - a.len()]); }
        }
    }
}

proof fn lemma_style_requests(family: Seq<char>, styles: Seq<TextSampleStyle>, weights: Seq<i32>, r: RequestView)
    ensures
        style_requests(family, styles, weights).contains(r)
            <==> r.0 == family && styles.contains(r.1) && weights.contains(r.2),
    decreases styles.len(),
{
    if styles.len() > 0 {
        lemma_style_requests(family, styles.drop_last(), weights, r);
        let w = weight_requests(family, styles.last(), weights);
        lemma_concat_contains(style_requests(family, styles.drop_last(), weights), w, r);
        if w.contains(r) {
            let i = choose|i: int| 0 <= i < w.len() && w[i] == r;
            assert(weights[i] == r.2);
        }
        if r.0 == family && r.1 == styles.last() && weights.contains(r.2) {
            let i = choose|i: int| 0 <= i < weights.len() && weights[i] == r.2;
            assert(w[i] == r);
        }
        if styles.contains(r.1) {
            let i = choose|i: int| 0 <= i < styles.len() && styles[i] == r.1;
            if i < styles.len() - 1 {
                assert(styles.drop_last()[i] == r.1);
            }
        }
        if styles.drop_last().contains(r.1) {
            let i = choose|i: int| 0 <= i < styles.drop_last().len() && styles.drop_last()[i] == r.1;
            assert(styles[i] == r.1);
        }
    }
}

proof fn lemma_sample_requests(family: Seq<char>, samples: Seq<TextSample>, r: RequestView)
    ensures
        sample_requests(family, samples).contains(r) <==> r.0 == family && samples_ask(samples, r),
    decreases samples.len(),
{
    if samples.len() > 0 {
        let prev = samples.drop_last();
        let last = samples.last();
        lemma_sample_requests(family, prev, r);
        lemma_concat_contains(sample_requests(family, prev),
            style_requests(family, style_list(last.used_styles), last.used_weights@), r);
        lemma_style_requests(family, style_list(last.used_styles), last.used_weights@, r);
        law_style_list(last.used_styles, r.1);
        if samples_ask(samples, r) {
            let k = choose|k: int| 0 <= k < samples.len() && sample_asks(#[trigger] samples[k], r);
            if k < samples.len() - 1 {
                assert(prev[k] == samples[k]);
            }
        }
        if samples_ask(prev, r) {
            let k = choose|k: int| 0 <= k < prev.len() && sample_asks(#[trigger] prev[k], r);
            assert(samples[k] == prev[k]);
        }
        if sample_asks(last, r) {
            assert(samples[samples.len() - 1] == last);
        }
    } else {
        assert(sample_requests(family, samples) =~= Seq::<RequestView>::empty());
    }
}

proof fn lemma_family_requests(families: Seq<String>, samples: Seq<TextSample>, r: RequestView)
    ensures
        family_requests(families, samples).contains(r)
            <==> (exists|j: int| 0 <= j < families.len() && (#[trigger] families[j])@ == r.0) && samples_ask(samples, r),
    decreases families.len(),
{
    if families.len() > 0 {
        let prev = families.drop_last();
        lemma_family_requests(prev, samples, r);
        lemma_concat_contains(family_requests(prev, samples), sample_requests(families.last()@, samples), r);
        lemma_sample_requests(families.last()@, samples, r);
        if exists|j: int| 0 <= j < families.len() && (#[trigger] families[j])@ == r.0 {
            let j = choose|j: int| 0 <= j < families.len() && (#[trigger] families[j])@ == r.0;
            if j < families.len() - 1 {
                assert(prev[j] == families[j]);
            }
        }
        if exists|j: int| 0 <= j < prev.len() && (#[trigger] prev[j])@ == r.0 {
            let j = choose|j: int| 0 <= j < prev.len() && (#[trigger] prev[j])@ == r.0;
            assert(families[j] == prev[j]);
        }
        if families.last()@ == r.0 {
            assert(families[families.len() - 1]@ == r.0);
        }
    } else {
        assert(family_requests(families, samples) =~= Seq::<RequestView>::empty());
    }
}

/// The fonts asked for are exactly the family, style and weight combinations that the text
/// uses: a request is listed if and only if some stack names its family and some sample of
/// that stack is set in its style (normal, italics or oblique) and its weight.
pub proof fn law_requests_exact(stacks: Seq<FontStackInfo>, r: RequestView)
    ensures
        stack_requests(stacks).contains(r) <==> exists|i: int| 0 <= i < stacks.len() && stack_asks(#[trigger] stacks[i], r),
    decreases stacks.len(),
{
    if stacks.len() > 0 {
        let prev = stacks.drop_last();
        let last = stacks.last();
        law_requests_exact(prev, r);
        lemma_concat_contains(stack_requests(prev), family_requests(last.stack@, last.samples@), r);
        lemma_family_requests(last.stack@, last.samples@, r);
        if exists|i: int| 0 <= i < stacks.len() && stack_asks(#[trigger] stacks[i], r) {
            let i = choose|i: int| 0 <= i < stacks.len() && stack_asks(#[trigger] stacks[i], r);
            if i < stacks.len() - 1 {
                assert(prev[i] == stacks[i]);
            }
        }
        if exists|i: int| 0 <= i < prev.len() && stack_asks(#[trigger] prev[i], r) {
            let i = choose|i: int| 0 <= i < prev.len() && stack_asks(#[trigger] prev[i], r);
            assert(stacks[i] == prev[i]);
        }
        if stack_asks(last, r) {
            assert(stacks[stacks.len() - 1] == last);
        }
    } else {
        assert(stack_requests(stacks) =~= Seq::<RequestView>::empty());
    }
}

} // verus!
