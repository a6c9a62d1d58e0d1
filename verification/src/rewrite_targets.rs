//! Which stylesheets of a page are rewritten, and which of them receive the generated
//! `@font-face` rules.
use vstd::prelude::*;
use crate::text::{chars_of, contains_str, contains_sub};

verus! {

/// A stylesheet that a page links: its resolved path, the link's `rel` attribute and whether
/// the file exists.
pub struct StylesheetLink {
    pub path: String,
    pub rel: String,
    pub exists: bool,
}

/// A link marked to receive the generated `@font-face` rules: its `rel` holds `mkwebfont-out`.
pub open spec fn marks_font_sheet(l: StylesheetLink) -> bool {
    contains_sub(l.rel@, "mkwebfont-out"@)
}

/// The links marked to receive the `@font-face` rules, in page order.
pub open spec fn font_links(s: Seq<StylesheetLink>) -> Seq<StylesheetLink>
    decreases s.len(),
{
    if s.len() == 0 {
        s
    } else if marks_font_sheet(s.last()) {
        font_links(s.drop_last()).push(s.last())
    } else {
        font_links(s.drop_last())
    }
}

/// The other links, in page order.
pub open spec fn other_links(s: Seq<StylesheetLink>) -> Seq<StylesheetLink>
    decreases s.len(),
{
    if s.len() == 0 {
        s
    } else if !marks_font_sheet(s.last()) {
        other_links(s.drop_last()).push(s.last())
    } else {
        other_links(s.drop_last())
    }
}

/// How many of the links name a file that does not exist.
pub open spec fn missing_count(s: Seq<StylesheetLink>) -> nat
    decreases s.len(),
{
    if s.len() == 0 {
        0
    } else {
        missing_count(s.drop_last()) + if s.last().exists { 0nat } else { 1nat }
    }
}

/// The position of the first link whose file exists (the length where there is none).
pub open spec fn first_existing(s: Seq<StylesheetLink>) -> int
    decreases s.len(),
{
    if s.len() == 0 || s[0].exists {
        0
    } else {
        1 + first_existing(s.drop_first())
    }
}

/// The paths of links.
pub open spec fn link_paths(s: Seq<StylesheetLink>) -> Seq<Seq<char>> {
    s.map_values(|l: StylesheetLink| l.path@)
}

/// The stylesheets that are rewritten, and those that receive the `@font-face` rules. Where no
/// link is marked, one of the others is taken for the rules: where exactly one of them names a
/// missing file, the first that exists; else the first.
pub open spec fn chosen_sheets(links: Seq<StylesheetLink>) -> (Seq<Seq<char>>, Seq<Seq<char>>) {
    let fonts = font_links(links);
    let others = other_links(links);
    if fonts.len() > 0 || others.len() == 0 {
        (link_paths(others), link_paths(fonts))
    } else if missing_count(others) == 1 {
        let j = first_existing(others);
        (link_paths(others.remove(j)), seq![others[j].path@])
    } else {
        (link_paths(others.drop_first()), seq![others[0].path@])
    }
}

/// The choice can be made: it is not the case that no link is marked, exactly one of the
/// others names a missing file and none of them names an existing one.
pub open spec fn sheets_choosable(links: Seq<StylesheetLink>) -> bool {
    let others = other_links(links);
    !(font_links(links).len() == 0 && others.len() > 0 && missing_count(others) == 1
        && first_existing(others) == others.len())
}

proof fn lemma_first_existing(s: Seq<StylesheetLink>)
    ensures
        0 <= first_existing(s) <= s.len(),
        first_existing(s) < s.len() ==> s[first_existing(s)].exists,
        forall|k: int| 0 <= k < first_existing(s) ==> !(#[trigger] s[k]).exists,
    decreases s.len(),
{
    if s.len() > 0 && !s[0].exists {
        lemma_first_existing(s.drop_first());
        assert forall|k: int| 0 <= k < first_existing(s) implies !(#[trigger] s[k]).exists by {
            if k > 0 {
                assert(s[k] == s.drop_first()[k - 1]);
            }
        }
    }
}

/// A copy of a link.
fn copy_link(l: &StylesheetLink) -> (r: StylesheetLink)
    ensures
        r == *l,
{
    StylesheetLink { path: l.path.clone(), rel: l.rel.clone(), exists: l.exists }
}

/// The paths of links.
fn paths_of(s: &Vec<StylesheetLink>, skip: usize) -> (r: Vec<String>)
    ensures
        skip < s@.len() ==> r@.map_values(|p: String| p@) == link_paths(s@.remove(skip as int)),
        skip >= s@.len() ==> r@.map_values(|p: String| p@) == link_paths(s@),
{
    let ghost t = if skip < s@.len() { s@.remove(skip as int) } else { s@ };
    let mut r: Vec<String> = Vec::new();
    let mut i: usize = 0;
    while i < s.len()
        invariant
            i <= s@.len(),
            t == (if skip < s@.len() { s@.remove(skip as int) } else { s@ }),
            r@.map_values(|p: String| p@) == link_paths(if i <= skip { s@.take(i as int) } else { s@.take(i as int).remove(skip as int) }),
        decreases s@.len() - i,
    {
        let ghost before = r@;
        if i != skip {
            r.push(s[i].path.clone());
        }
        proof {
            let a = if i <= skip { s@.take(i as int) } else { s@.take(i as int).remove(skip as int) };
            let b = if i + 1 <= skip { s@.take(i + 1) } else { s@.take(i + 1).remove(skip as int) };
            if i != skip {
                assert(b =~= a.push(s@[i as int]));
                assert(r@ == before.push(s@[i as int].path));
                assert(r@.map_values(|p: String| p@) =~= before.map_values(|p: String| p@).push(s@[i as int].path@));
                assert(link_paths(b) =~= link_paths(a).push(s@[i as int].path@));
            } else {
                assert(b =~= a);
            }
        }
        i = i + 1;
    }
    proof {
        if skip < s@.len() {
            assert(s@.take(s@.len() as int) =~= s@);
        } else {
            assert(s@.take(s@.len() as int) =~= s@);
        }
    }
    r
}

/// Splits a page's stylesheet links into those that are rewritten and those that receive the
/// generated `@font-face` rules (see `chosen_sheets`).
pub fn choose_font_sheets(links: &Vec<StylesheetLink>) -> (r: (Vec<String>, Vec<String>))
    requires
        sheets_choosable(links@),
    ensures
        r.0@.map_values(|p: String| p@) == chosen_sheets(links@).0,
        r.1@.map_values(|p: String| p@) == chosen_sheets(links@).1,
{
    let mut fonts: Vec<StylesheetLink> = Vec::new();
    let mut others: Vec<StylesheetLink> = Vec::new();
    let mut missing: usize = 0;
    let mut i: usize = 0;
    while i < links.len()
        invariant
            i <= links@.len(),
            fonts@ == font_links(links@.take(i as int)),
            others@ == other_links(links@.take(i as int)),
            missing == missing_count(other_links(links@.take(i as int))),
            missing <= i,
        decreases links@.len() - i,
    {
        let l = copy_link(&links[i]);
        let rel = chars_of(l.rel.as_str());
        let ghost t = links@.take(i + 1);
        proof {
            assert(t.drop_last() =~= links@.take(i as int));
            assert(t.last() == links@[i as int]);
        }
        if contains_str(&rel, "mkwebfont-out") {
            fonts.push(l);
        } else {
            if !l.exists {
                missing = missing + 1;
            }
            let ghost o = others@;
            others.push(l);
            proof {
                assert(other_links(t) == o.push(links@[i as int]));
                assert(other_links(t).drop_last() =~= o);
            }
        }
        i = i + 1;
    }
    proof {
        assert(links@.take(links@.len() as int) =~= links@);
    }
    if fonts.len() > 0 || others.len() == 0 {
        let n = others.len();
        let a = paths_of(&others, n);
        let b = paths_of(&fonts, fonts.len());
        return (a, b);
    }
    let mut j: usize = others.len();
    if missing == 1 {
        proof {
            lemma_first_existing(others@);
        }
        let mut k: usize = 0;
        while k < others.len()
            invariant
                k <= others@.len(),
                k <= first_existing(others@),
                first_existing(others@) <= others@.len(),
                first_existing(others@) < others@.len() ==> others@[first_existing(others@)].exists,
                forall|q: int| 0 <= q < first_existing(others@) ==> !(#[trigger] others@[q]).exists,
            ensures
                k == first_existing(others@),
            decreases others@.len() - k,
        {
            if others[k].exists {
                assert(!(k < first_existing(others@)));
                break;
            }
            k = k + 1;
        }
        j = k;
        assert(j == first_existing(others@));
    } else {
        j = 0;
    }
    let rest = paths_of(&others, j);
    let chosen = others[j].path.clone();
    let mut one: Vec<String> = Vec::new();
    one.push(chosen);
    proof {
        assert(one@.map_values(|p: String| p@) =~= seq![others@[j as int].path@]);
        if missing != 1 {
            assert(others@.remove(0) =~= others@.drop_first());
        }
    }
    (rest, one)
}

proof fn lemma_split_lengths(s: Seq<StylesheetLink>)
    ensures
        font_links(s).len() + other_links(s).len() == s.len(),
    decreases s.len(),
{
    if s.len() > 0 {
        lemma_split_lengths(s.drop_last());
    }
}

/// Every link is placed once: the sheets rewritten and those receiving the `@font-face` rules
/// are as many as the links together, and some sheet receives the rules whenever the page links
/// any sheet; a single sheet receives them where no link is marked.
pub proof fn law_every_sheet_placed(links: Seq<StylesheetLink>)
    requires
        sheets_choosable(links),
    ensures
        chosen_sheets(links).0.len() + chosen_sheets(links).1.len() == links.len(),
        links.len() > 0 ==> chosen_sheets(links).1.len() > 0,
        font_links(links).len() == 0 && links.len() > 0 ==> chosen_sheets(links).1.len() == 1,
{
    lemma_split_lengths(links);
    let others = other_links(links);
    lemma_first_existing(others);
}

} // verus!
