//! The `@font-face` rules that load the split webfonts: one rule per subset of each font, with
//! the font's family, style and weight range, the subset's Unicode ranges and the address of its
//! file in the store.
use vstd::prelude::*;
use crate::fonts::FontStyle;
use crate::text::{chars_of, push_chars, string_from_chars};

verus! {

/// A subset of a split font: its Unicode ranges (first and last code point of each) and the name
/// of its WOFF2 file.
pub struct SubsetSource {
    pub ranges: Vec<(u32, u32)>,
    pub file_name: String,
}

/// A split font: its family, style, the range of weights it covers, and its subsets.
pub struct FontSource {
    pub family: String,
    pub style: FontStyle,
    pub weight_low: u32,
    pub weight_high: u32,
    pub subsets: Vec<SubsetSource>,
}

/// One `@font-face` rule: family, style, weight range, Unicode ranges and the address of the
/// WOFF2 file.
pub struct FontFaceRule {
    pub family: String,
    pub style: FontStyle,
    pub weight_low: u32,
    pub weight_high: u32,
    pub ranges: Vec<(u32, u32)>,
    pub url: String,
}

/// A rule as plain values.
pub type RuleView = (Seq<char>, FontStyle, u32, u32, Seq<(u32, u32)>, Seq<char>);

/// The views of rules.
pub open spec fn rules_view(v: Seq<FontFaceRule>) -> Seq<RuleView> {
    v.map_values(|r: FontFaceRule| (r.family@, r.style, r.weight_low, r.weight_high, r.ranges@, r.url@))
}

/// The rule of one subset of a font, its file under `store_uri`.
pub open spec fn subset_rule(f: FontSource, s: SubsetSource, store_uri: Seq<char>) -> RuleView {
    (f.family@, f.style, f.weight_low, f.weight_high, s.ranges@, store_uri + seq!['/'] + s.file_name@)
}

/// The rules of the subsets of a font, in order.
pub open spec fn font_rules(f: FontSource, subsets: Seq<SubsetSource>, store_uri: Seq<char>) -> Seq<RuleView> {
    subsets.map_values(|s: SubsetSource| subset_rule(f, s, store_uri))
}

/// The rules of all fonts, font after font.
pub open spec fn all_rules(fonts: Seq<FontSource>, store_uri: Seq<char>) -> Seq<RuleView>
    decreases fonts.len(),
{
    if fonts.len() == 0 {
        Seq::empty()
    } else {
        all_rules(fonts.drop_last(), store_uri) + font_rules(fonts.last(), fonts.last().subsets@, store_uri)
    }
}

/// A copy of a list of ranges.
fn copy_ranges(v: &Vec<(u32, u32)>) -> (r: Vec<(u32, u32)>)
    ensures
        r@ == v@,
{
    let mut r: Vec<(u32, u32)> = Vec::new();
    let mut i: usize = 0;
    while i < v.len()
        invariant
            i <= v@.len(),
            r@ == v@.take(i as int),
        decreases v@.len() - i,
    {
        r.push(v[i]);
        assert(r@ =~= v@.take(i + 1));
        i = i + 1;
    }
    assert(v@.take(v@.len() as int) =~= v@);
    r
}

fn push_font_rules(out: &mut Vec<FontFaceRule>, f: &FontSource, store_uri: &str)
    ensures
        rules_view(final(out)@) == rules_view(old(out)@) + font_rules(*f, f.subsets@, store_uri@),
{
    let ghost start = rules_view(out@);
    let mut i: usize = 0;
    while i < f.subsets.len()
        invariant
            i <= f.subsets@.len(),
            rules_view(out@) == start + font_rules(*f, f.subsets@.take(i as int), store_uri@),
        decreases f.subsets@.len() - i,
    {
        let s = &f.subsets[i];
        let mut url = chars_of(store_uri);
        url.push('/');
        let ghost with_slash = url@;
        push_chars(&mut url, &chars_of(s.file_name.as_str()));
        assert(with_slash =~= store_uri@ + seq!['/']);
        assert(url@ =~= store_uri@ + seq!['/'] + s.file_name@);
        let rule = FontFaceRule {
            family: f.family.clone(),
            style: f.style,
            weight_low: f.weight_low,
            weight_high: f.weight_high,
            ranges: copy_ranges(&s.ranges),
            url: string_from_chars(&url),
        };
        let ghost before = out@;
        out.push(rule);
        proof {
            assert(out@ == before.push(out@.last()));
            assert(rules_view(out@) =~= rules_view(before).push(subset_rule(*f, f.subsets@[i as int], store_uri@)));
            assert(font_rules(*f, f.subsets@.take(i + 1), store_uri@)
                =~= font_rules(*f, f.subsets@.take(i as int), store_uri@).push(subset_rule(*f, f.subsets@[i as int], store_uri@)));
        }
        i = i + 1;
    }
    assert(f.subsets@.take(f.subsets@.len() as int) =~= f.subsets@);
}

/// The `@font-face` rules for the split fonts, with their files under `store_uri`: for each font,
/// one rule per subset, in order.
pub fn generate_font_face_rules(fonts: &Vec<FontSource>, store_uri: &str) -> (r: Vec<FontFaceRule>)
    ensures
        rules_view(r@) == all_rules(fonts@, store_uri@),
{
    let mut out: Vec<FontFaceRule> = Vec::new();
    assert(rules_view(out@) =~= Seq::<RuleView>::empty());
    let mut i: usize = 0;
    while i < fonts.len()
        invariant
            i <= fonts@.len(),
            rules_view(out@) == all_rules(fonts@.take(i as int), store_uri@),
        decreases fonts@.len() - i,
    {
        push_font_rules(&mut out, &fonts[i], store_uri);
        assert(fonts@.take(i + 1).drop_last() =~= fonts@.take(i as int));
        i = i + 1;
    }
    assert(fonts@.take(fonts@.len() as int) =~= fonts@);
    out
}

/// How many subsets the fonts have together.
pub open spec fn subset_total(fonts: Seq<FontSource>) -> nat
    decreases fonts.len(),
{
    if fonts.len() == 0 { 0 } else { subset_total(fonts.drop_last()) + fonts.last().subsets@.len() }
}

/// There is one rule per subset, and every rule loads a file in the store: its address is the
/// store's address, a `/`, and the file name, which is the name of one of the font's subsets.
pub proof fn law_one_rule_per_subset(fonts: Seq<FontSource>, store_uri: Seq<char>)
    ensures
        all_rules(fonts, store_uri).len() == subset_total(fonts),
        forall|k: int| 0 <= k < all_rules(fonts, store_uri).len() ==> {
            let url = (#[trigger] all_rules(fonts, store_uri)[k]).5;
            &&& url.len() > store_uri.len()
            &&& url.take((store_uri.len() + 1) as int) == store_uri.push('/')
            &&& exists|i: int, j: int| 0 <= i < fonts.len() && 0 <= j < fonts[i].subsets@.len()
                && url.skip((store_uri.len() + 1) as int) == #[trigger] fonts[i].subsets@[j].file_name@
                && all_rules(fonts, store_uri)[k].0 == fonts[i].family@
        },
    decreases fonts.len(),
{
    if fonts.len() > 0 {
        let prev = fonts.drop_last();
        let f = fonts.last();
        law_one_rule_per_subset(prev, store_uri);
        let a = all_rules(prev, store_uri);
        let b = font_rules(f, f.subsets@, store_uri);
        let all = all_rules(fonts, store_uri);
        assert(all == a + b);
        assert forall|k: int| 0 <= k < all.len() implies {
            let url = (#[trigger] all[k]).5;
            &&& url.len() > store_uri.len()
            &&& url.take((store_uri.len() + 1) as int) == store_uri.push('/')
            &&& exists|i: int, j: int| 0 <= i < fonts.len() && 0 <= j < fonts[i].subsets@.len()
                && url.skip((store_uri.len() + 1) as int) == #[trigger] fonts[i].subsets@[j].file_name@
                && all[k].0 == fonts[i].family@
        } by {
            if k < a.len() {
                assert(all[k] == a[k]);
                let url = a[k].5;
                let (i, j) = choose|i: int, j: int| 0 <= i < prev.len() && 0 <= j < prev[i].subsets@.len()
                    && url.skip((store_uri.len() + 1) as int) == #[trigger] prev[i].subsets@[j].file_name@
                    && a[k].0 == prev[i].family@;
                assert(fonts[i] == prev[i]);
            } else {
                let j = k - a.len();
                assert(all[k] == b[j]);
                let s = f.subsets@[j];
                let url = store_uri + seq!['/'] + s.file_name@;
                assert(b[j].5 == url);
                assert(url.take((store_uri.len() + 1) as int) =~= store_uri.push('/'));
                assert(url.skip((store_uri.len() + 1) as int) =~= s.file_name@);
                assert(fonts[fonts.len() - 1] == f);
                assert(fonts[fonts.len() - 1].subsets@[j] == s);
            }
        }
    }
}

} // verus!
