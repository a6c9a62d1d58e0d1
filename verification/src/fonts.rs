//! The style and weight of a font, inferred from the style name in its naming table, and the
//! characters that a subset of a font keeps.
use vstd::prelude::*;
use crate::category::{GeneralCategory, categories, category_at};
use roaring::RoaringBitmap;
use crate::roaring_bitmap::{roaring_contents, roaring_values};
use crate::sort::strictly_increasing;
use crate::text::{
    chars_of, contains_str, contains_sub, lowercase, push_decimal, decimal, replace_char,
    replace_char_in, string_from_chars, to_lowercase,
};

verus! {

#[derive(Copy, Clone, Debug, PartialEq, Eq, Structural)]
pub enum FontStyle {
    Regular,
    Italic,
    Oblique,
}

#[derive(Copy, Clone, Debug, PartialEq, Eq, Structural)]
pub enum FontWeight {
    Regular,
    Bold,
    Numeric(u32),
}

/// The style name as it is matched: lowercase, with hyphens read as spaces.
pub open spec fn normalized_style(style: Seq<char>) -> Seq<char> {
    replace_char(lowercase(style), '-', ' ')
}

/// The font style that a style name stands for: the first of "regular", "italic" and
/// "oblique" that the normalized name contains, else regular.
pub open spec fn style_for(style: Seq<char>) -> FontStyle {
    let s = normalized_style(style);
    if contains_sub(s, "regular"@) {
        FontStyle::Regular
    } else if contains_sub(s, "italic"@) {
        FontStyle::Italic
    } else if contains_sub(s, "oblique"@) {
        FontStyle::Oblique
    } else {
        FontStyle::Regular
    }
}

/// The font weight that a style name stands for: the first keyword in this list that the
/// normalized name contains decides it.
pub open spec fn weight_for(style: Seq<char>) -> FontWeight {
    let s = normalized_style(style);
    if contains_sub(s, "regular"@) {
        FontWeight::Regular
    } else if contains_sub(s, "thin"@) || contains_sub(s, "hairline"@) {
        FontWeight::Numeric(100)
    } else if contains_sub(s, "extralight"@) || contains_sub(s, "extra light"@) {
        FontWeight::Numeric(200)
    } else if contains_sub(s, "ultralight"@) || contains_sub(s, "ultra light"@) {
        FontWeight::Numeric(200)
    } else if contains_sub(s, "medium"@) {
        FontWeight::Numeric(500)
    } else if contains_sub(s, "semibold"@) || contains_sub(s, "semi bold"@) {
        FontWeight::Numeric(600)
    } else if contains_sub(s, "demibold"@) || contains_sub(s, "demi bold"@) {
        FontWeight::Numeric(600)
    } else if contains_sub(s, "extrabold"@) || contains_sub(s, "extra bold"@) {
        FontWeight::Numeric(800)
    } else if contains_sub(s, "ultrabold"@) || contains_sub(s, "ultra bold"@) {
        FontWeight::Numeric(800)
    } else if contains_sub(s, "extrablack"@) || contains_sub(s, "extra black"@) {
        FontWeight::Numeric(950)
    } else if contains_sub(s, "ultrablack"@) || contains_sub(s, "ultra black"@) {
        FontWeight::Numeric(950)
    } else if contains_sub(s, "black"@) {
        FontWeight::Numeric(900)
    } else if contains_sub(s, "heavy"@) {
        FontWeight::Numeric(900)
    } else if contains_sub(s, "bold"@) {
        FontWeight::Bold
    } else {
        FontWeight::Regular
    }
}

/// The CSS `font-style` value of a style.
pub open spec fn style_css(style: FontStyle) -> Seq<char> {
    match style {
        FontStyle::Regular => "normal"@,
        FontStyle::Italic => "italic"@,
        FontStyle::Oblique => "oblique"@,
    }
}

/// The CSS `font-weight` value of a weight.
pub open spec fn weight_css(weight: FontWeight) -> Seq<char> {
    match weight {
        FontWeight::Regular => "normal"@,
        FontWeight::Bold => "bold"@,
        FontWeight::Numeric(n) => decimal(n as nat),
    }
}

fn normalize(style: &str) -> (r: Vec<char>)
    ensures
        r@ == normalized_style(style@),
{
    let lower = to_lowercase(style);
    let chars = chars_of(lower.as_str());
    replace_char_in(&chars, '-', ' ')
}

impl FontStyle {
    /// Infers the style from a font's style name.
    pub fn infer_from_style(style: &str) -> (r: FontStyle)
        ensures
            r == style_for(style@),
    {
        let s = normalize(style);
        if contains_str(&s, "regular") {
            FontStyle::Regular
        } else if contains_str(&s, "italic") {
            FontStyle::Italic
        } else if contains_str(&s, "oblique") {
            FontStyle::Oblique
        } else {
            FontStyle::Regular
        }
    }

    /// Infers the style from a font's style name.
    pub fn infer(style: &str) -> (r: FontStyle)
        ensures
            r == style_for(style@),
    {
        FontStyle::infer_from_style(style)
    }

    /// The CSS `font-style` value of this style.
    pub fn css_value(&self) -> (s: String)
        ensures
            s@ == style_css(*self),
    {
        let text = match self {
            FontStyle::Regular => "normal",
            FontStyle::Italic => "italic",
            FontStyle::Oblique => "oblique",
        };
        text.to_owned()
    }
}

/// `-` or a space: the two characters that the style matching reads alike.
pub open spec fn is_separator_char(c: char) -> bool {
    c == '-' || c == ' '
}

/// The weight read from a style name depends only on its lowercase form with hyphens read as
/// spaces: two names whose lowercase forms differ only where one has `-` and the other a space
/// (or the other way round) get the same weight. A numeric weight is one of 100, 200, 500, 600,
/// 800, 900 and 950.
pub proof fn law_weight_normalized(s: Seq<char>, s2: Seq<char>)
    requires
        lowercase(s).len() == lowercase(s2).len(),
        forall|i: int| 0 <= i < lowercase(s).len() ==> #[trigger] lowercase(s)[i] == lowercase(s2)[i]
            || (is_separator_char(lowercase(s)[i]) && is_separator_char(lowercase(s2)[i])),
    ensures
        weight_for(s) == weight_for(s2),
        weight_for(s) matches FontWeight::Numeric(n) ==> n == 100 || n == 200 || n == 500 || n == 600
            || n == 800 || n == 900 || n == 950,
{
    assert(normalized_style(s) =~= normalized_style(s2));
}

/// A name that says `italic` (and not `regular`) is italic; one that says `oblique` but neither
/// `regular` nor `italic` is oblique; any other name is regular.
pub proof fn law_style_keywords(style: Seq<char>)
    ensures
        ({
            let s = normalized_style(style);
            &&& contains_sub(s, "italic"@) && !contains_sub(s, "regular"@) ==> style_for(style) == FontStyle::Italic
            &&& contains_sub(s, "oblique"@) && !contains_sub(s, "regular"@) && !contains_sub(s, "italic"@)
                ==> style_for(style) == FontStyle::Oblique
            &&& !(contains_sub(s, "italic"@) && !contains_sub(s, "regular"@))
                && !(contains_sub(s, "oblique"@) && !contains_sub(s, "regular"@))
                ==> style_for(style) == FontStyle::Regular
        }),
{
}

/// The value of a run of decimal digits.
pub open spec fn digits_value(s: Seq<char>) -> int
    decreases s.len(),
{
    if s.len() == 0 { 0 } else { digits_value(s.drop_last()) * 10 + (s.last() as int - '0' as int) }
}

proof fn lemma_decimal_reads_back(n: nat)
    ensures
        decimal(n).len() > 0,
        forall|i: int| 0 <= i < decimal(n).len() ==> '0' <= #[trigger] decimal(n)[i] <= '9',
        digits_value(decimal(n)) == n,
    decreases n,
{
    if n >= 10 {
        lemma_decimal_reads_back(n / 10);
        let d = decimal(n);
        assert(d.drop_last() =~= decimal(n / 10));
        assert forall|i: int| 0 <= i < d.len() implies '0' <= #[trigger] d[i] <= '9' by {
            if i < d.len() - 1 { assert(d[i] == decimal(n / 10)[i]); }
        }
        assert(n == (n / 10) * 10 + n % 10) by (nonlinear_arith);
        assert(digits_value(d) == digits_value(d.drop_last()) * 10 + (d.last() as int - '0' as int));
    } else {
        let d = decimal(n);
        assert(d.drop_last() =~= Seq::<char>::empty());
        assert(digits_value(d) == digits_value(d.drop_last()) * 10 + (d.last() as int - '0' as int));
    }
}

/// The CSS weight of a font: `normal` for regular, `bold` for bold, and a numeric weight as its
/// decimal digits, which read back as the number.
pub proof fn law_weight_css(weight: FontWeight)
    ensures
        weight == FontWeight::Regular ==> weight_css(weight) == "normal"@,
        weight == FontWeight::Bold ==> weight_css(weight) == "bold"@,
        weight matches FontWeight::Numeric(n) ==> weight_css(weight).len() > 0
            && (forall|i: int| 0 <= i < weight_css(weight).len() ==> '0' <= #[trigger] weight_css(weight)[i] <= '9')
            && digits_value(weight_css(weight)) == n,
{
    if let FontWeight::Numeric(n) = weight {
        lemma_decimal_reads_back(n as nat);
    }
}

/// The name says a weight lighter than semibold, or says it is regular.
pub open spec fn names_lighter_weight(s: Seq<char>) -> bool {
    contains_sub(s, "regular"@) || contains_sub(s, "thin"@) || contains_sub(s, "hairline"@)
        || contains_sub(s, "extralight"@) || contains_sub(s, "extra light"@)
        || contains_sub(s, "ultralight"@) || contains_sub(s, "ultra light"@) || contains_sub(s, "medium"@)
}

/// A name written with `semi`/`demi` and `bold`, joined or apart, and no lighter weight is weight
/// 600, though it also holds `bold`; one with `extra`/`ultra` and `bold` is 800; `bold` alone is
/// bold; a light name is 200 and a thin one 100; a name that says `regular` is regular whatever
/// else it says; and a name that says no weight at all is regular.
pub proof fn law_weight_keywords(style: Seq<char>)
    ensures
        ({
            let s = normalized_style(style);
            &&& contains_sub(s, "regular"@) ==> weight_for(style) == FontWeight::Regular
            &&& (contains_sub(s, "thin"@) || contains_sub(s, "hairline"@)) && !contains_sub(s, "regular"@)
                ==> weight_for(style) == FontWeight::Numeric(100)
            &&& (contains_sub(s, "demibold"@) || contains_sub(s, "demi bold"@) || contains_sub(s, "semibold"@)
                || contains_sub(s, "semi bold"@)) && !names_lighter_weight(s)
                ==> weight_for(style) == FontWeight::Numeric(600)
            &&& contains_sub(s, "demibold"@) ==> contains_sub(s, "bold"@)
            &&& (contains_sub(s, "extrabold"@) || contains_sub(s, "extra bold"@) || contains_sub(s, "ultrabold"@)
                || contains_sub(s, "ultra bold"@)) && !names_lighter_weight(s) && !contains_sub(s, "semibold"@)
                && !contains_sub(s, "semi bold"@) && !contains_sub(s, "demibold"@) && !contains_sub(s, "demi bold"@)
                ==> weight_for(style) == FontWeight::Numeric(800)
            &&& !contains_sub(s, "regular"@) && !contains_sub(s, "thin"@) && !contains_sub(s, "hairline"@)
                && (contains_sub(s, "extralight"@) || contains_sub(s, "extra light"@)
                || contains_sub(s, "ultralight"@) || contains_sub(s, "ultra light"@))
                ==> weight_for(style) == FontWeight::Numeric(200)
            &&& contains_sub(s, "bold"@) && !names_lighter_weight(s) && !contains_sub(s, "semi"@)
                && !contains_sub(s, "demi"@) && !contains_sub(s, "extra"@) && !contains_sub(s, "ultra"@)
                && !contains_sub(s, "black"@) && !contains_sub(s, "heavy"@)
                ==> weight_for(style) == FontWeight::Bold
            &&& !contains_sub(s, "bold"@) && !names_lighter_weight(s) && !contains_sub(s, "black"@)
                && !contains_sub(s, "heavy"@) ==> weight_for(style) == FontWeight::Regular
        }),
{
    let s = normalized_style(style);
    reveal_strlit("demibold");
    reveal_strlit("bold");
    reveal_strlit("semi");
    reveal_strlit("semibold");
    reveal_strlit("semi bold");
    reveal_strlit("demi");
    reveal_strlit("demi bold");
    reveal_strlit("extra");
    reveal_strlit("extrabold");
    reveal_strlit("extra bold");
    reveal_strlit("ultra");
    reveal_strlit("ultrabold");
    reveal_strlit("ultra bold");
    reveal_strlit("extrablack");
    reveal_strlit("extra black");
    reveal_strlit("ultrablack");
    reveal_strlit("ultra black");
    reveal_strlit("black");
    if contains_sub(s, "demibold"@) {
        let i = choose|i: int| 0 <= i <= s.len() - "demibold"@.len() && #[trigger] s.subrange(i, i + "demibold"@.len()) == "demibold"@;
        let w = s.subrange(i, i + 8);
        assert(s.subrange(i + 4, i + 8) =~= w.subrange(4, 8));
        assert(w.subrange(4, 8) =~= "bold"@);
    }
    assert(contains_sub(s, "bold"@) && !contains_sub(s, "semi"@) && !contains_sub(s, "demi"@)
        && !contains_sub(s, "extra"@) && !contains_sub(s, "ultra"@) ==> {
            &&& !contains_sub(s, "semibold"@) &&& !contains_sub(s, "semi bold"@)
            &&& !contains_sub(s, "demibold"@) &&& !contains_sub(s, "demi bold"@)
            &&& !contains_sub(s, "extrabold"@) &&& !contains_sub(s, "extra bold"@)
            &&& !contains_sub(s, "ultrabold"@) &&& !contains_sub(s, "ultra bold"@)
            &&& !contains_sub(s, "extrablack"@) &&& !contains_sub(s, "extra black"@)
            &&& !contains_sub(s, "ultrablack"@) &&& !contains_sub(s, "ultra black"@)
        }) by {
        lemma_no_longer_word(s, "semi"@, "semibold"@);
        lemma_no_longer_word(s, "semi"@, "semi bold"@);
        lemma_no_longer_word(s, "demi"@, "demibold"@);
        lemma_no_longer_word(s, "demi"@, "demi bold"@);
        lemma_no_longer_word(s, "extra"@, "extrabold"@);
        lemma_no_longer_word(s, "extra"@, "extra bold"@);
        lemma_no_longer_word(s, "ultra"@, "ultrabold"@);
        lemma_no_longer_word(s, "ultra"@, "ultra bold"@);
        lemma_no_longer_word(s, "extra"@, "extrablack"@);
        lemma_no_longer_word(s, "extra"@, "extra black"@);
        lemma_no_longer_word(s, "ultra"@, "ultrablack"@);
        lemma_no_longer_word(s, "ultra"@, "ultra black"@);
    }
    assert(!contains_sub(s, "black"@) ==> !contains_sub(s, "extrablack"@) && !contains_sub(s, "extra black"@)
        && !contains_sub(s, "ultrablack"@) && !contains_sub(s, "ultra black"@)) by {
        lemma_no_word_inside(s, "black"@, "extrablack"@, 5);
        lemma_no_word_inside(s, "black"@, "extra black"@, 6);
        lemma_no_word_inside(s, "black"@, "ultrablack"@, 5);
        lemma_no_word_inside(s, "black"@, "ultra black"@, 6);
    }
    assert(!contains_sub(s, "bold"@) ==> !contains_sub(s, "semibold"@) && !contains_sub(s, "semi bold"@)
        && !contains_sub(s, "demibold"@) && !contains_sub(s, "demi bold"@) && !contains_sub(s, "extrabold"@)
        && !contains_sub(s, "extra bold"@) && !contains_sub(s, "ultrabold"@) && !contains_sub(s, "ultra bold"@)) by {
        lemma_no_word_inside(s, "bold"@, "semibold"@, 4);
        lemma_no_word_inside(s, "bold"@, "semi bold"@, 5);
        lemma_no_word_inside(s, "bold"@, "demibold"@, 4);
        lemma_no_word_inside(s, "bold"@, "demi bold"@, 5);
        lemma_no_word_inside(s, "bold"@, "extrabold"@, 5);
        lemma_no_word_inside(s, "bold"@, "extra bold"@, 6);
        lemma_no_word_inside(s, "bold"@, "ultrabold"@, 5);
        lemma_no_word_inside(s, "bold"@, "ultra bold"@, 6);
    }
}

/// A text without `word` holds no longer word that starts with it.
proof fn lemma_no_longer_word(s: Seq<char>, word: Seq<char>, longer: Seq<char>)
    requires
        word.len() <= longer.len(),
        longer.take(word.len() as int) =~= word,
    ensures
        !contains_sub(s, word) ==> !contains_sub(s, longer),
{
    lemma_no_word_inside(s, word, longer, 0);
}

/// A text without `word` holds no longer word that has it at position `at`.
proof fn lemma_no_word_inside(s: Seq<char>, word: Seq<char>, longer: Seq<char>, at: int)
    requires
        0 <= at,
        at + word.len() <= longer.len(),
        longer.subrange(at, at + word.len()) =~= word,
    ensures
        !contains_sub(s, word) ==> !contains_sub(s, longer),
{
    if contains_sub(s, longer) {
        let i = choose|i: int| 0 <= i <= s.len() - longer.len() && #[trigger] s.subrange(i, i + longer.len()) == longer;
        assert(s.subrange(i + at, i + at + word.len()) =~= longer.subrange(at, at + word.len()));
    }
}

/// The name says a semibold, demibold, extrabold or ultrabold weight, joined or apart.
pub open spec fn names_bold_variant(s: Seq<char>) -> bool {
    contains_sub(s, "semibold"@) || contains_sub(s, "semi bold"@) || contains_sub(s, "demibold"@)
        || contains_sub(s, "demi bold"@) || contains_sub(s, "extrabold"@) || contains_sub(s, "extra bold"@)
        || contains_sub(s, "ultrabold"@) || contains_sub(s, "ultra bold"@)
}

/// The name says an extrablack or ultrablack weight, joined or apart.
pub open spec fn names_extra_black(s: Seq<char>) -> bool {
    contains_sub(s, "extrablack"@) || contains_sub(s, "extra black"@) || contains_sub(s, "ultrablack"@)
        || contains_sub(s, "ultra black"@)
}

/// The heavier rows of the keyword table: a `medium` name with no lighter weight is 500; an
/// extra or ultra black name with no lighter weight and no bold variant is 950; and a `black` or
/// `heavy` name with none of those is 900.
pub proof fn law_heavier_weights(style: Seq<char>)
    ensures
        ({
            let s = normalized_style(style);
            &&& contains_sub(s, "medium"@) && !contains_sub(s, "regular"@) && !contains_sub(s, "thin"@)
                && !contains_sub(s, "hairline"@) && !contains_sub(s, "extralight"@)
                && !contains_sub(s, "extra light"@) && !contains_sub(s, "ultralight"@)
                && !contains_sub(s, "ultra light"@) ==> weight_for(style) == FontWeight::Numeric(500)
            &&& names_extra_black(s) && !names_lighter_weight(s) && !names_bold_variant(s)
                ==> weight_for(style) == FontWeight::Numeric(950)
            &&& (contains_sub(s, "black"@) || contains_sub(s, "heavy"@)) && !names_lighter_weight(s)
                && !names_bold_variant(s) && !names_extra_black(s) ==> weight_for(style) == FontWeight::Numeric(900)
        }),
{
}

impl FontWeight {
    /// Infers the weight from a font's style name.
    pub fn infer_from_style(style: &str) -> (r: FontWeight)
        ensures
            r == weight_for(style@),
    {
        let s = normalize(style);
        if contains_str(&s, "regular") {
            FontWeight::Regular
        } else if contains_str(&s, "thin") || contains_str(&s, "hairline") {
            FontWeight::Numeric(100)
        } else if contains_str(&s, "extralight") || contains_str(&s, "extra light") {
            FontWeight::Numeric(200)
        } else if contains_str(&s, "ultralight") || contains_str(&s, "ultra light") {
            FontWeight::Numeric(200)
        } else if contains_str(&s, "medium") {
            FontWeight::Numeric(500)
        } else if contains_str(&s, "semibold") || contains_str(&s, "semi bold") {
            FontWeight::Numeric(600)
        } else if contains_str(&s, "demibold") || contains_str(&s, "demi bold") {
            FontWeight::Numeric(600)
        } else if contains_str(&s, "extrabold") || contains_str(&s, "extra bold") {
            FontWeight::Numeric(800)
        } else if contains_str(&s, "ultrabold") || contains_str(&s, "ultra bold") {
            FontWeight::Numeric(800)
        } else if contains_str(&s, "extrablack") || contains_str(&s, "extra black") {
            FontWeight::Numeric(950)
        } else if contains_str(&s, "ultrablack") || contains_str(&s, "ultra black") {
            FontWeight::Numeric(950)
        } else if contains_str(&s, "black") {
            FontWeight::Numeric(900)
        } else if contains_str(&s, "heavy") {
            FontWeight::Numeric(900)
        } else if contains_str(&s, "bold") {
            FontWeight::Bold
        } else {
            FontWeight::Regular
        }
    }

    /// Infers the weight from a font's style name.
    pub fn infer(style: &str) -> (r: FontWeight)
        ensures
            r == weight_for(style@),
    {
        FontWeight::infer_from_style(style)
    }

    /// The CSS `font-weight` value of this weight.
    pub fn css_value(&self) -> (s: String)
        ensures
            s@ == weight_css(*self),
    {
        match self {
            FontWeight::Regular => "normal".to_owned(),
            FontWeight::Bold => "bold".to_owned(),
            FontWeight::Numeric(n) => {
                let mut out: Vec<char> = Vec::new();
                push_decimal(&mut out, *n as u64);
                assert(out@ =~= decimal(*n as nat));
                string_from_chars(&out)
            },
        }
    }
}

/// The position of the general category of `c`, in the tables of `unicode-properties`, among
/// the variants of `unicode_properties::GeneralCategory` as that enum declares them.
pub uninterp spec fn properties_category_position(c: char) -> u8;

/// Calls `UnicodeGeneralCategory::general_category` from `unicode-properties` and converts the
/// category to its position in the declaration of `GeneralCategory` (30 variants, in the order
/// of the Unicode Character Database). The contract names the position as a function of the
/// character.
#[verifier::external_body]
fn category_position(c: char) -> (r: u8)
    ensures
        r == properties_category_position(c),
        r < 30,
{
    unicode_properties::UnicodeGeneralCategory::general_category(c) as u8
}

/// The general category of `c` is control (`Cc`) or format (`Cf`), in the tables of
/// `unicode-properties`.
pub open spec fn control_or_format(c: char) -> bool {
    let g = categories()[properties_category_position(c) as int];
    g == GeneralCategory::Control || g == GeneralCategory::Format
}

/// Whether the general category of `c` is control or format.
fn is_control_or_format(c: char) -> (r: bool)
    ensures
        r == control_or_format(c),
{
    let g = category_at(category_position(c));
    matches!(g, GeneralCategory::Control | GeneralCategory::Format)
}

/// The codes of a list of characters.
pub open spec fn char_codes(s: Seq<char>) -> Seq<u32> {
    s.map_values(|c: char| c as u32)
}

/// The characters that a subset of a font keeps of the code points `chars`: all but control and
/// format characters, in increasing order.
pub fn subset_chars(chars: &RoaringBitmap) -> (r: Vec<char>)
    requires
        forall|x: u32| #[trigger] roaring_contents(*chars).contains(x) ==> crate::text::is_scalar(x as int),
    ensures
        strictly_increasing(char_codes(r@)),
        forall|x: u32| #[trigger] char_codes(r@).contains(x) <==> (roaring_contents(*chars).contains(x)
            && !control_or_format(x as char)),
{
    let vals = roaring_values(chars);
    let mut out: Vec<char> = Vec::new();
    let mut i: usize = 0;
    while i < vals.len()
        invariant
            i <= vals@.len(),
            strictly_increasing(vals@),
            vals@.to_set() == roaring_contents(*chars),
            forall|x: u32| #[trigger] roaring_contents(*chars).contains(x) ==> crate::text::is_scalar(x as int),
            strictly_increasing(char_codes(out@)),
            forall|q: int| 0 <= q < char_codes(out@).len() ==> exists|p: int| 0 <= p < i && #[trigger] char_codes(out@)[q] == vals@[p],
            forall|x: u32| #[trigger] char_codes(out@).contains(x) <==> (vals@.take(i as int).contains(x)
                && !control_or_format(x as char)),
        decreases vals@.len() - i,
    {
        let v = vals[i];
        assert(vals@.to_set().contains(v));
        let c = core::char::from_u32(v).unwrap();
        proof {
            crate::text::lemma_char_scalar(c);
            assert((v as char) as u32 == v);
            crate::text::lemma_char_code_injective(v as char, c);
        }
        let ghost before = out@;
        if !is_control_or_format(c) {
            out.push(c);
        }
        proof {
            assert(vals@.take(i + 1) =~= vals@.take(i as int).push(v));
            crate::sort::lemma_push_contains(vals@.take(i as int), v, v);
            if out@.len() > before.len() {
                assert(char_codes(out@) =~= char_codes(before).push(v));
                assert forall|q: int| 0 <= q < char_codes(before).len() implies char_codes(before)[q] < v by {
                    let p = choose|p: int| 0 <= p < i && #[trigger] char_codes(before)[q] == vals@[p];
                }
                assert forall|x: u32| #[trigger] char_codes(out@).contains(x) <==> (vals@.take(i + 1).contains(x)
                    && !control_or_format(x as char)) by {
                    crate::sort::lemma_push_contains(char_codes(before), v, x);
                    crate::sort::lemma_push_contains(vals@.take(i as int), v, x);
                }
                assert forall|q: int| 0 <= q < char_codes(out@).len() implies exists|p: int| 0 <= p < i + 1
                    && #[trigger] char_codes(out@)[q] == vals@[p] by {
                    if q < char_codes(before).len() {
                        let p = choose|p: int| 0 <= p < i && #[trigger] char_codes(before)[q] == vals@[p];
                        assert(char_codes(out@)[q] == vals@[p]);
                    } else {
                        assert(char_codes(out@)[q] == vals@[i as int]);
                    }
                }
            } else {
                assert forall|x: u32| #[trigger] char_codes(out@).contains(x) <==> (vals@.take(i + 1).contains(x)
                    && !control_or_format(x as char)) by {
                    crate::sort::lemma_push_contains(vals@.take(i as int), v, x);
                }
            }
        }
        i = i + 1;
    }
    proof {
        assert(vals@.take(i as int) =~= vals@);
        assert forall|x: u32| #[trigger] char_codes(out@).contains(x) <==> (roaring_contents(*chars).contains(x)
            && !control_or_format(x as char)) by {
            assert(vals@.contains(x) == vals@.to_set().contains(x));
        }
    }
    out
}

/// What the tables of one face of a font file say of it: its glyph count, its number of
/// variation axes, its family and typographic family names, its subfamily (style) name, its
/// version string and the characters it covers.
pub struct FontRecord {
    pub glyph_count: u32,
    pub variation_axes: usize,
    pub family: String,
    pub typographic_family: String,
    pub subfamily: String,
    pub version: String,
    pub codepoints: Vec<char>,
}

/// A loaded font face: its names, whether it is variable, the style and weight inferred from its
/// style name, and the code points it has.
pub struct FontDescription {
    pub font_family: String,
    pub font_style: String,
    pub font_version: String,
    pub is_variable: bool,
    pub parsed_font_style: FontStyle,
    pub parsed_font_weight: FontWeight,
    pub available_codepoints: RoaringBitmap,
}

/// The family of a face: for a variable font whose family name starts with a non-empty
/// typographic family, the typographic family (the family name often has a weight baked in);
/// else the family name.
pub open spec fn described_family(r: FontRecord) -> Seq<char> {
    if r.variation_axes > 0 && r.typographic_family@.len() > 0
        && crate::css_text::starts_with(r.family@, r.typographic_family@) {
        r.typographic_family@
    } else {
        r.family@
    }
}

/// Describes a face from what its tables say; a face without glyphs is left out. A variable
/// font's weight is regular (its weight does not matter), else it is inferred from the style
/// name, as its style is.
pub fn describe_font(record: &FontRecord) -> (d: Option<FontDescription>)
    ensures
        d is None <==> record.glyph_count == 0,
        d matches Some(x) ==> {
            &&& x.font_family@ == described_family(*record)
            &&& x.font_style@ == record.subfamily@
            &&& x.font_version@ == record.version@
            &&& x.is_variable == (record.variation_axes > 0)
            &&& x.parsed_font_style == style_for(record.subfamily@)
            &&& x.parsed_font_weight == (if record.variation_axes > 0 { FontWeight::Regular } else {
                weight_for(record.subfamily@) })
            &&& roaring_contents(x.available_codepoints) == char_codes(record.codepoints@).to_set()
        },
{
    if record.glyph_count == 0 {
        return None;
    }
    let is_variable = record.variation_axes > 0;
    let fam = chars_of(record.family.as_str());
    let font_family = if is_variable && !record.typographic_family.as_str().is_empty()
        && crate::css_text::chars_start_with(&fam, record.typographic_family.as_str()) {
        record.typographic_family.clone()
    } else {
        record.family.clone()
    };
    let parsed_font_style = FontStyle::infer(record.subfamily.as_str());
    let parsed_font_weight = if is_variable { FontWeight::Regular } else { FontWeight::infer(record.subfamily.as_str()) };
    let mut available = crate::roaring_bitmap::roaring_new();
    let mut i: usize = 0;
    while i < record.codepoints.len()
        invariant
            i <= record.codepoints@.len(),
            roaring_contents(available) == char_codes(record.codepoints@.take(i as int)).to_set(),
        decreases record.codepoints@.len() - i,
    {
        let c = record.codepoints[i];
        crate::roaring_bitmap::roaring_insert(&mut available, crate::text::char_code(c));
        proof {
            assert(char_codes(record.codepoints@.take(i + 1)) =~= char_codes(record.codepoints@.take(i as int)).push(c as u32));
            crate::sort::lemma_push_to_set(char_codes(record.codepoints@.take(i as int)), c as u32);
        }
        i = i + 1;
    }
    assert(record.codepoints@.take(record.codepoints@.len() as int) =~= record.codepoints@);
    Some(FontDescription {
        font_family,
        font_style: record.subfamily.clone(),
        font_version: record.version.clone(),
        is_variable,
        parsed_font_style,
        parsed_font_weight,
        available_codepoints: available,
    })
}

} // verus!
