//! What the text extraction reads of the declarations of a CSS style rule: the font stack,
//! whether the element is displayed, and generated `content`.
use vstd::prelude::*;

verus! {

/// An entry of a font family list.
pub enum FontFamilyName {
    /// A generic family (`serif`, `sans-serif`, ...), which names no font.
    Generic,
    /// A family name.
    FamilyName(String),
}

/// A declaration of a style rule, as far as the text extraction reads it.
pub enum CssDeclaration {
    /// `display`; `none` tells whether the value is `none`.
    Display { none: bool },
    /// The custom property `content`, with the text of its value where that value is a single
    /// string token, `None` where it is anything else.
    Content(Option<String>),
    /// The `font` shorthand, with its family list.
    Font(Vec<FontFamilyName>),
    /// `font-family`, with its family list.
    FontFamily(Vec<FontFamilyName>),
    /// Any other declaration.
    Other,
}

/// The declarations of a rule that the text extraction uses.
pub struct RawCssRuleDeclarations {
    pub stack: Option<Vec<String>>,
    pub is_displayed: Option<bool>,
    pub content: Option<String>,
}

/// The family names of a family list, generic families left out.
pub open spec fn family_names(f: Seq<FontFamilyName>) -> Seq<Seq<char>> {
    f.filter_map(|x: FontFamilyName| match x {
        FontFamilyName::FamilyName(s) => Some(s@),
        FontFamilyName::Generic => None,
    })
}

/// What has been read of the declarations so far: the stack, whether displayed, the content,
/// and whether any declaration of interest was seen.
pub type DeclState = (Option<Seq<Seq<char>>>, Option<bool>, Option<Seq<char>>, bool);

/// The effect of one declaration: a later declaration of the same kind replaces an earlier one.
pub open spec fn read_declaration(st: DeclState, d: CssDeclaration) -> DeclState {
    match d {
        CssDeclaration::Display { none } => (st.0, Some(!none), st.2, true),
        CssDeclaration::Content(Some(text)) => (st.0, st.1, Some(text@), true),
        CssDeclaration::Content(None) => st,
        CssDeclaration::Font(f) => (Some(family_names(f@)), st.1, st.2, true),
        CssDeclaration::FontFamily(f) => (Some(family_names(f@)), st.1, st.2, true),
        CssDeclaration::Other => st,
    }
}

/// The effect of the declarations, in order.
pub open spec fn read_declarations(st: DeclState, ds: Seq<CssDeclaration>) -> DeclState
    decreases ds.len(),
{
    if ds.len() == 0 {
        st
    } else {
        read_declaration(read_declarations(st, ds.drop_last()), ds.last())
    }
}

/// The `font` shorthand sets the font stack just as `font-family` does: after either, whatever
/// came before, the rule's stack is the family list's names and the rule is of interest; the
/// displayed flag and the content are left as they were.
pub proof fn law_font_shorthand(st: DeclState, ds: Seq<CssDeclaration>, f: Vec<FontFamilyName>)
    ensures
        read_declaration(st, CssDeclaration::Font(f)) == read_declaration(st, CssDeclaration::FontFamily(f)),
        read_declarations(st, ds.push(CssDeclaration::Font(f))).0 == Some(family_names(f@)),
        read_declarations(st, ds.push(CssDeclaration::Font(f))).3,
        read_declarations(st, ds.push(CssDeclaration::Font(f))).1 == read_declarations(st, ds).1,
        read_declarations(st, ds.push(CssDeclaration::Font(f))).2 == read_declarations(st, ds).2,
{
    assert(ds.push(CssDeclaration::Font(f)).drop_last() =~= ds);
}

/// The entry is the named family `n`.
pub open spec fn names_family(x: FontFamilyName, n: Seq<char>) -> bool {
    match x {
        FontFamilyName::FamilyName(s) => s@ == n,
        FontFamilyName::Generic => false,
    }
}

/// The stack of a family list holds the names of its named families and nothing else: generic
/// families are left out, and there are no more names than families.
pub proof fn law_family_names(f: Seq<FontFamilyName>, n: Seq<char>)
    ensures
        family_names(f).len() <= f.len(),
        family_names(f).contains(n) <==> exists|i: int| 0 <= i < f.len()
            && names_family(#[trigger] f[i], n),
    decreases f.len(),
{
    if f.len() > 0 {
        let prev = f.drop_last();
        law_family_names(prev, n);
        let names = family_names(f);
        let pn = family_names(prev);
        if names.contains(n) {
            let k = choose|k: int| 0 <= k < names.len() && names[k] == n;
            if k < pn.len() {
                assert(names[k] == pn[k]);
                assert(pn.contains(n));
                let i = choose|i: int| 0 <= i < prev.len() && names_family(#[trigger] prev[i], n);
                assert(f[i] == prev[i]);
            } else {
                assert(f[f.len() - 1] == f.last());
            }
        }
        if exists|i: int| 0 <= i < f.len() && names_family(#[trigger] f[i], n) {
            let i = choose|i: int| 0 <= i < f.len() && names_family(#[trigger] f[i], n);
            if i < f.len() - 1 {
                assert(prev[i] == f[i]);
                assert(pn.contains(n));
                let k = choose|k: int| 0 <= k < pn.len() && pn[k] == n;
                assert(names[k] == pn[k]);
            } else {
                assert(names[names.len() - 1] == n);
            }
        }
    }
}

/// The stack keeps the order of the family list: one more named family at the end of the list
/// puts its name at the end of the stack, and one more generic family leaves the stack as it was.
pub proof fn law_family_names_append(f: Seq<FontFamilyName>, x: FontFamilyName)
    ensures
        x matches FontFamilyName::FamilyName(s) ==> family_names(f.push(x)) == family_names(f).push(s@),
        x is Generic ==> family_names(f.push(x)) == family_names(f),
{
    assert(f.push(x).drop_last() =~= f);
    assert(f.push(x).last() == x);
    if let FontFamilyName::FamilyName(s) = x {
        assert(family_names(f.push(x)) =~= family_names(f).push(s@));
    }
}

/// `display: none` marks the element hidden and any other `display` marks it shown; a `content`
/// that is one string sets the content to it, and one that is not leaves everything as it was;
/// other declarations change nothing. Each setting declaration makes the rule of interest and
/// leaves the other settings as they were.
pub proof fn law_declaration_effects(st: DeclState, none: bool, text: String)
    ensures
        read_declaration(st, CssDeclaration::Display { none }) == (st.0, Some(!none), st.2, true),
        read_declaration(st, CssDeclaration::Content(Some(text))) == (st.0, st.1, Some(text@), true),
        read_declaration(st, CssDeclaration::Content(None)) == st,
        read_declaration(st, CssDeclaration::Other) == st,
{
}

/// The family names of a list, generic families left out.
fn parse_font_families(families: &Vec<FontFamilyName>) -> (names: Vec<String>)
    ensures
        names@.map_values(|s: String| s@) == family_names(families@),
{
    let mut names: Vec<String> = Vec::new();
    let mut i: usize = 0;
    while i < families.len()
        invariant
            i <= families@.len(),
            names@.map_values(|s: String| s@) == family_names(families@.take(i as int)),
        decreases families@.len() - i,
    {
        let ghost before = names@;
        assert(families@.take(i + 1).drop_last() =~= families@.take(i as int));
        match &families[i] {
            FontFamilyName::Generic => {},
            FontFamilyName::FamilyName(name) => {
                names.push(name.clone());
                assert(names@.map_values(|s: String| s@) =~= before.map_values(|s: String| s@) + seq![name@]);
            },
        }
        i = i + 1;
    }
    assert(families@.take(families@.len() as int) =~= families@);
    names
}

/// The view of what has been read.
pub open spec fn decl_view(r: RawCssRuleDeclarations, interesting: bool) -> DeclState {
    (
        match r.stack {
            Some(v) => Some(v@.map_values(|s: String| s@)),
            None => None,
        },
        r.is_displayed,
        match r.content {
            Some(c) => Some(c@),
            None => None,
        },
        interesting,
    )
}

/// `read_declarations` over two lists is over the first, then the second.
proof fn lemma_read_declarations_append(st: DeclState, a: Seq<CssDeclaration>, b: Seq<CssDeclaration>)
    ensures
        read_declarations(st, a + b) == read_declarations(read_declarations(st, a), b),
    decreases b.len(),
{
    if b.len() == 0 {
        assert(a + b =~= a);
    } else {
        lemma_read_declarations_append(st, a, b.drop_last());
        assert((a + b).drop_last() =~= a + b.drop_last());
        assert((a + b).last() == b.last());
    }
}

/// Reads a list of declarations into what has been read so far.
fn read_into(raw: &mut RawCssRuleDeclarations, interesting: &mut bool, ds: &Vec<CssDeclaration>)
    ensures
        decl_view(*final(raw), *final(interesting)) == read_declarations(decl_view(*old(raw), *old(interesting)), ds@),
{
    let ghost st0 = decl_view(*raw, *interesting);
    let mut i: usize = 0;
    assert(ds@.take(0) =~= Seq::<CssDeclaration>::empty());
    while i < ds.len()
        invariant
            i <= ds@.len(),
            st0 == decl_view(*old(raw), *old(interesting)),
            decl_view(*raw, *interesting) == read_declarations(st0, ds@.take(i as int)),
        decreases ds@.len() - i,
    {
        assert(ds@.take(i + 1).drop_last() =~= ds@.take(i as int));
        match &ds[i] {
            CssDeclaration::Display { none } => {
                raw.is_displayed = Some(!*none);
                *interesting = true;
            },
            CssDeclaration::Content(Some(text)) => {
                raw.content = Some(text.clone());
                *interesting = true;
            },
            CssDeclaration::Content(None) => {},
            CssDeclaration::Font(f) => {
                raw.stack = Some(parse_font_families(f));
                *interesting = true;
            },
            CssDeclaration::FontFamily(f) => {
                raw.stack = Some(parse_font_families(f));
                *interesting = true;
            },
            CssDeclaration::Other => {},
        }
        i = i + 1;
    }
    assert(ds@.take(ds@.len() as int) =~= ds@);
}

/// Reads the declarations of a style rule, its `!important` ones first: a later declaration
/// replaces what an earlier one of the same kind gave. `None` when no declaration of interest
/// (`display`, a string `content`, `font`, `font-family`) occurs.
pub fn parse_declarations(important: &Vec<CssDeclaration>, normal: &Vec<CssDeclaration>) -> (r: Option<RawCssRuleDeclarations>)
    ensures
        ({
            let st = read_declarations((None, None, None, false), important@ + normal@);
            match r {
                Some(d) => st.3 && decl_view(d, true) == st,
                None => !st.3,
            }
        }),
{
    let mut raw = RawCssRuleDeclarations { stack: None, is_displayed: None, content: None };
    let mut interesting = false;
    proof {
        lemma_read_declarations_append((None, None, None, false), important@, normal@);
    }
    read_into(&mut raw, &mut interesting, important);
    read_into(&mut raw, &mut interesting, normal);
    if interesting {
        Some(raw)
    } else {
        None
    }
}

} // verus!
