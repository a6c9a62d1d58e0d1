//! The subset plan: which code points each font must serve, and which it must leave out or
//! preload, read from subset specifications and from the text of web pages.
use vstd::prelude::*;
use crate::character_set::CharacterSet;
use crate::css_text::{trim, starts_with, split_char, has_char, trim_chars, chars_start_with, split_chars,
    slice_chars, before, find_from};
use crate::gfsubsets::{parse_hex, contains_char, parse_hex_chars};
use crate::subset_data::chars_set;
use crate::text::{chars_of, replace_char, replace_char_in, string_from_chars, char_code, lowercase, to_lowercase};
use crate::fallbacks::{remaining, fulfilled};
use std::collections::HashMap;

verus! {

broadcast use vstd::std_specs::hash::group_hash_axioms;

/// Why a character set specification is refused.
#[derive(Copy, Clone, Debug, PartialEq, Eq, Structural)]
pub enum CharsetError {
    /// A number is not hexadecimal, or does not fit in a `u32`.
    BadNumber,
    /// A range has more than one `-`.
    MultipleDashes,
}

/// A character set specification: a file to read the characters from, or the characters.
pub enum CharsetSpec {
    File(String),
    Chars(CharacterSet),
}

/// A character set specification as plain values: whether it names a file, the file's path,
/// and the code points.
pub type CharsetView = (bool, Seq<char>, Set<u32>);

/// The specification `c` is `v`.
pub open spec fn charset_is(c: CharsetSpec, v: CharsetView) -> bool {
    match c {
        CharsetSpec::File(p) => v.0 && p@ == v.1,
        CharsetSpec::Chars(s) => !v.0 && s@ == v.2,
    }
}

/// What one section of a `#` range list gives: `None` where the reader stops on a section that
/// does not start with `U+`, else the range or why it is refused. A range is `a-b`, a single
/// value, or a value with `?` wildcards (from all of them `0` to all of them `F`).
pub open spec fn section_range(section: Seq<char>) -> Option<Result<(u32, u32), CharsetError>> {
    let t = trim(section);
    if !starts_with(t, "U+"@) {
        None
    } else {
        let b = t.skip(2);
        if has_char(b, '-') {
            let parts = split_char(b, '-');
            match parse_hex(parts[0]) {
                None => Some(Err(CharsetError::BadNumber)),
                Some(start) => match parse_hex(parts[1]) {
                    None => Some(Err(CharsetError::BadNumber)),
                    Some(end) => if parts.len() > 2 {
                        Some(Err(CharsetError::MultipleDashes))
                    } else {
                        Some(Ok((start, end)))
                    },
                },
            }
        } else if has_char(b, '?') {
            match parse_hex(replace_char(b, '?', '0')) {
                None => Some(Err(CharsetError::BadNumber)),
                Some(start) => match parse_hex(replace_char(b, '?', 'F')) {
                    None => Some(Err(CharsetError::BadNumber)),
                    Some(end) => Some(Ok((start, end))),
                },
            }
        } else {
            match parse_hex(b) {
                None => Some(Err(CharsetError::BadNumber)),
                Some(v) => Some(Ok((v, v))),
            }
        }
    }
}

/// The code points from `a` to `b`.
pub open spec fn span(a: u32, b: u32) -> Set<u32> {
    Set::new(|x: u32| a <= x <= b)
}

/// What a list of sections gives, read in order: the first section that stops the reader or is
/// refused decides, else the union of their ranges.
pub open spec fn sections_set(sections: Seq<Seq<char>>) -> Option<Result<Set<u32>, CharsetError>>
    decreases sections.len(),
{
    if sections.len() == 0 {
        Some(Ok(Set::empty()))
    } else {
        match section_range(sections[0]) {
            None => None,
            Some(Err(e)) => Some(Err(e)),
            Some(Ok((a, b))) => match sections_set(sections.skip(1)) {
                Some(Ok(rest)) => Some(Ok(span(a, b).union(rest))),
                other => other,
            },
        }
    }
}

/// What a character set specification gives: `@path` names a file, `#` starts a list of
/// `U+` ranges, and anything else lists the characters themselves. `None` where the reader
/// stops on a broken range list.
pub open spec fn charset_outcome(spec: Seq<char>) -> Option<Result<CharsetView, CharsetError>> {
    if starts_with(spec, "@"@) {
        Some(Ok((true, spec.skip(1), Set::empty())))
    } else if starts_with(spec, "#"@) {
        match sections_set(split_char(spec.skip(1), ',')) {
            None => None,
            Some(Err(e)) => Some(Err(e)),
            Some(Ok(s)) => Some(Ok((false, Seq::empty(), s))),
        }
    } else {
        Some(Ok((false, Seq::empty(), chars_set(spec))))
    }
}

/// The code points of the characters of `text`.
pub fn chars_to_set(text: &str) -> (s: CharacterSet)
    ensures
        s@ == chars_set(text@),
{
    let mut s = CharacterSet::new();
    for ch in it: text.chars()
        invariant
            it.seq() == text@,
            s@ == chars_set(text@.take(it.index())),
    {
        let ghost k = it.index();
        s.insert(char_code(ch));
        proof {
            let p = text@.take(k);
            let q = text@.take(k + 1);
            assert(q =~= p.push(ch));
            assert forall|x: u32| #[trigger] chars_set(q).contains(x) == (chars_set(p).contains(x) || x == ch as u32) by {
                if chars_set(q).contains(x) {
                    let i = choose|i: int| 0 <= i < q.len() && q[i] as u32 == x;
                    if i < p.len() {
                        assert(p[i] == q[i]);
                    }
                }
                if chars_set(p).contains(x) {
                    let i = choose|i: int| 0 <= i < p.len() && p[i] as u32 == x;
                    assert(q[i] == p[i]);
                }
                if x == ch as u32 {
                    assert(q[k] == ch);
                }
            }
            assert(s@ =~= chars_set(q));
        }
    }
    assert(text@.take(text@.len() as int) =~= text@);
    s
}

/// Reads one section of a range list.
fn read_section(section: &Vec<char>) -> (r: Result<(u32, u32), CharsetError>)
    requires
        section_range(section@) is Some,
    ensures
        section_range(section@) == Some(r),
{
    let t = trim_chars(section);
    proof { reveal_strlit("U+"); }
    let b = slice_chars(&t, 2, t.len());
    assert(b@ =~= t@.skip(2));
    if contains_char(&b, '-') {
        proof { crate::css_text::lemma_split_char_len(b@, '-'); }
        let parts = split_chars(&b, '-');
        assert(parts@[0]@ == split_char(b@, '-')[0]);
        assert(parts@[1]@ == split_char(b@, '-')[1]);
        let start = match parse_hex_chars(&parts[0]) {
            None => return Err(CharsetError::BadNumber),
            Some(v) => v,
        };
        let end = match parse_hex_chars(&parts[1]) {
            None => return Err(CharsetError::BadNumber),
            Some(v) => v,
        };
        if parts.len() > 2 {
            Err(CharsetError::MultipleDashes)
        } else {
            Ok((start, end))
        }
    } else if contains_char(&b, '?') {
        let low = replace_char_in(&b, '?', '0');
        let start = match parse_hex_chars(&low) {
            None => return Err(CharsetError::BadNumber),
            Some(v) => v,
        };
        let high = replace_char_in(&b, '?', 'F');
        let end = match parse_hex_chars(&high) {
            None => return Err(CharsetError::BadNumber),
            Some(v) => v,
        };
        Ok((start, end))
    } else {
        match parse_hex_chars(&b) {
            None => Err(CharsetError::BadNumber),
            Some(v) => Ok((v, v)),
        }
    }
}

/// Inserts the code points from `a` to `b`.
fn insert_span(s: &mut CharacterSet, a: u32, b: u32)
    ensures
        final(s)@ == old(s)@.union(span(a, b)),
{
    let ghost start = s@;
    if a > b {
        assert(s@ =~= start.union(span(a, b)));
        return;
    }
    let mut ch: u32 = a;
    loop
        invariant
            a <= ch <= b,
            start == old(s)@,
            s@ == start.union(Set::new(|x: u32| a <= x < ch)),
        decreases b - ch,
    {
        s.insert(ch);
        if ch == b {
            assert(s@ =~= start.union(span(a, b)));
            return;
        }
        ch = ch + 1;
        assert(s@ =~= start.union(Set::new(|x: u32| a <= x < ch)));
    }
}

/// Reads a character set specification.
pub fn parse_charset(spec: &str) -> (r: Result<CharsetSpec, CharsetError>)
    requires
        charset_outcome(spec@) is Some,
    ensures
        match charset_outcome(spec@) {
            Some(Ok(v)) => r matches Ok(c) && charset_is(c, v),
            Some(Err(e)) => r == Err::<CharsetSpec, CharsetError>(e),
            None => false,
        },
{
    let text = chars_of(spec);
    proof {
        reveal_strlit("@");
        reveal_strlit("#");
    }
    if chars_start_with(&text, "@") {
        let path = slice_chars(&text, 1, text.len());
        assert(path@ =~= spec@.skip(1));
        return Ok(CharsetSpec::File(string_from_chars(&path)));
    }
    if chars_start_with(&text, "#") {
        let body = slice_chars(&text, 1, text.len());
        assert(body@ =~= spec@.skip(1));
        let sections = split_chars(&body, ',');
        let ghost sv = sections@.map_values(|v: Vec<char>| v@);
        let mut set = CharacterSet::new();
        let mut k: usize = 0;
        proof {
            assert(sv.skip(0) =~= sv);
            assert(set@.union(Set::<u32>::empty()) =~= Set::<u32>::empty());
            match sections_set(sv) {
                Some(Ok(b)) => { assert(set@.union(b) =~= b); },
                _ => {},
            }
        }
        while k < sections.len()
            invariant
                k <= sections@.len(),
                sv == sections@.map_values(|v: Vec<char>| v@),
                sv == split_char(spec@.skip(1), ','),
                !starts_with(spec@, "@"@),
                starts_with(spec@, "#"@),
                sections_set(sv) is Some,
                sections_set(sv) == match sections_set(sv.skip(k as int)) {
                    Some(Ok(rest)) => Some(Ok(set@.union(rest))),
                    other => other,
                },
            decreases sections@.len() - k,
        {
            let ghost rest = sv.skip(k as int);
            let ghost acc = set@;
            assert(rest[0] == sections@[k as int]@);
            assert(rest.skip(1) =~= sv.skip(k + 1));
            match read_section(&sections[k]) {
                Err(e) => {
                    assert(sections_set(rest) == Some(Err::<Set<u32>, CharsetError>(e)));
                    return Err(e);
                },
                Ok((a, b)) => {
                    insert_span(&mut set, a, b);
                    proof {
                        match sections_set(sv.skip(k + 1)) {
                            Some(Ok(r2)) => {
                                assert(acc.union(span(a, b).union(r2)) =~= acc.union(span(a, b)).union(r2));
                            },
                            _ => {},
                        }
                    }
                },
            }
            k = k + 1;
        }
        proof {
            assert(sv.skip(k as int) =~= Seq::<Seq<char>>::empty());
            assert(set@.union(Set::<u32>::empty()) =~= set@);
        }
        return Ok(CharsetSpec::Chars(set));
    }
    Ok(CharsetSpec::Chars(chars_to_set(spec)))
}

/// Whether a character set specification can be read without the reader stopping on a range
/// list section that does not start with `U+`.
pub fn readable_charset(spec: &str) -> (r: bool)
    ensures
        r == (charset_outcome(spec@) is Some),
{
    let text = chars_of(spec);
    proof {
        reveal_strlit("@");
        reveal_strlit("#");
        reveal_strlit("U+");
    }
    if chars_start_with(&text, "@") || !chars_start_with(&text, "#") {
        return true;
    }
    let body = slice_chars(&text, 1, text.len());
    assert(body@ =~= spec@.skip(1));
    let sections = split_chars(&body, ',');
    let ghost sv = sections@.map_values(|v: Vec<char>| v@);
    proof { assert(sv.skip(0) =~= sv); }
    let mut k: usize = 0;
    while k < sections.len()
        invariant
            k <= sections@.len(),
            sv == sections@.map_values(|v: Vec<char>| v@),
            sv == split_char(spec@.skip(1), ','),
            charset_outcome(spec@) == match sections_set(sv) {
                None => None,
                Some(Err(e)) => Some(Err(e)),
                Some(Ok(s)) => Some(Ok((false, Seq::<char>::empty(), s))),
            },
            (sections_set(sv) is Some) == (sections_set(sv.skip(k as int)) is Some),
        decreases sections@.len() - k,
    {
        let ghost rest = sv.skip(k as int);
        assert(rest[0] == sections@[k as int]@);
        assert(rest.skip(1) =~= sv.skip(k + 1));
        let t = trim_chars(&sections[k]);
        if !chars_start_with(&t, "U+") {
            return false;
        }
        match read_section(&sections[k]) {
            Err(_) => {
                return true;
            },
            Ok(_) => {},
        }
        k = k + 1;
    }
    proof {
        assert(sv.skip(k as int) =~= Seq::<Seq<char>>::empty());
    }
    true
}

/// Whether a subset specification can be read without the reader stopping.
pub fn readable_spec(spec: &str) -> (r: bool)
    ensures
        r == spec_readable(spec@),
{
    let text = chars_of(spec);
    proof {
        reveal_strlit("@");
        reveal_strlit("exclude:");
        reveal_strlit("preload:");
        reveal_strlit("*:");
    }
    if chars_start_with(&text, "@") {
        return true;
    }
    let prefixed = chars_start_with(&text, "exclude:") || chars_start_with(&text, "preload:");
    let rest = if prefixed { slice_chars(&text, 8, text.len()) } else { text.clone() };
    assert(rest@ =~= (if prefixed { spec@.skip(8) } else { spec@ }));
    let chars = if chars_start_with(&rest, "*:") {
        let c = slice_chars(&rest, 2, rest.len());
        assert(c@ =~= rest@.skip(2));
        c
    } else {
        match split_two_chars(&rest) {
            Some((_f, c)) => c,
            None => return true,
        }
    };
    let chars_text = string_from_chars(&chars);
    readable_charset(chars_text.as_str())
}

/// The font names of a font list: the parts between commas, trimmed.
pub fn font_list_names(spec: &str) -> (r: Vec<String>)
    ensures
        names_view(r) == split_char(spec@, ',').map_values(|p: Seq<char>| trim(p)),
{
    let text = chars_of(spec);
    let parts = split_chars(&text, ',');
    let ghost pv = parts@.map_values(|v: Vec<char>| v@);
    let mut names: Vec<String> = Vec::new();
    let mut k: usize = 0;
    while k < parts.len()
        invariant
            k <= parts@.len(),
            pv == parts@.map_values(|v: Vec<char>| v@),
            pv == split_char(spec@, ','),
            names_view(names) == pv.take(k as int).map_values(|p: Seq<char>| trim(p)),
        decreases parts@.len() - k,
    {
        let ghost before = names@;
        let name = string_from_chars(&trim_chars(&parts[k]));
        let ghost nv = name;
        names.push(name);
        proof {
            assert(before.map_values(|s: String| s@).len() == k);
            assert(names@ == before.push(nv));
            let want = pv.take(k + 1).map_values(|p: Seq<char>| trim(p));
            assert forall|q: int| 0 <= q < k + 1 implies names_view(names)[q] == want[q] by {
                if q < k {
                    assert(names@[q] == before[q]);
                    assert(pv.take(k + 1)[q] == pv.take(k as int)[q]);
                    assert(names_view(names)[q] == before.map_values(|s: String| s@)[q]);
                } else {
                    assert(names@[q] == nv);
                    assert(pv.take(k + 1)[q] == pv[k as int]);
                    assert(pv[k as int] == parts@[k as int]@);
                    assert(nv@ == trim(pv[k as int]));
                    assert(want[q] == trim(pv[k as int]));
                    assert(names_view(names)[q] == nv@);
                }
            }
            assert(names_view(names) =~= want);
        }
        k = k + 1;
    }
    proof {
        assert(pv.take(k as int) =~= pv);
    }
    names
}

/// `s` split at its first `:`, when it has one.
pub open spec fn split_two(s: Seq<char>) -> Option<(Seq<char>, Seq<char>)> {
    match find_from(s, seq![':'], 0) {
        Some(i) => Some((s.take(i), s.skip(i + 1))),
        None => None,
    }
}

/// Why a subset specification is refused.
#[derive(Copy, Clone, Debug, PartialEq, Eq, Structural)]
pub enum SpecError {
    /// A part that needs a font list and a character set has no `:`.
    BadFormat,
    /// The character set is refused.
    Charset(CharsetError),
}

/// What a subset specification asks for.
pub enum SpecCommand {
    /// Read more specifications, one per line, from this file.
    Include(String),
    /// Leave these code points out of every font.
    AllExclusion(CharsetSpec),
    /// Leave these code points out of the listed fonts.
    Exclusion(String, CharsetSpec),
    /// Preload these code points in every font.
    AllPreload(CharsetSpec),
    /// Preload these code points in the listed fonts.
    Preload(String, CharsetSpec),
    /// Serve these code points in every font.
    AllSubset(CharsetSpec),
    /// Serve these code points from the listed fonts, the first that has each.
    Stack(String, CharsetSpec),
}

/// The character set part that a specification refers to, where it refers to one.
pub open spec fn spec_charset(spec: Seq<char>) -> Option<Seq<char>> {
    if starts_with(spec, "@"@) {
        None
    } else {
        let (rest, prefixed) = if starts_with(spec, "exclude:"@) || starts_with(spec, "preload:"@) {
            (spec.skip(8), true)
        } else {
            (spec, false)
        };
        if starts_with(rest, "*:"@) {
            Some(rest.skip(2))
        } else {
            match split_two(rest) {
                Some((_fonts, chars)) => Some(chars),
                None => None,
            }
        }
    }
}

/// The specification can be read without the reader stopping: its character set part, if it
/// has one, is no broken range list.
pub open spec fn spec_readable(spec: Seq<char>) -> bool {
    match spec_charset(spec) {
        Some(c) => charset_outcome(c) is Some,
        None => true,
    }
}

/// The font list part of a specification with one.
pub open spec fn spec_fonts(spec: Seq<char>) -> Seq<char> {
    let rest = if starts_with(spec, "exclude:"@) || starts_with(spec, "preload:"@) { spec.skip(8) } else { spec };
    split_two(rest).unwrap().0
}

/// `r` is what reading the specification `spec` gives: the command chosen by the prefix, with
/// its parts, or why it is refused.
pub open spec fn spec_result_is(spec: Seq<char>, r: Result<SpecCommand, SpecError>) -> bool {
    if starts_with(spec, "@"@) {
        r matches Ok(SpecCommand::Include(p)) && p@ == spec.skip(1)
    } else {
        let kind: int = if starts_with(spec, "exclude:"@) { 0 } else if starts_with(spec, "preload:"@) { 1 } else { 2 };
        let rest = if kind < 2 { spec.skip(8) } else { spec };
        let all = starts_with(rest, "*:"@);
        if !all && split_two(rest) is None {
            r == Err::<SpecCommand, SpecError>(SpecError::BadFormat)
        } else {
            let chars = spec_charset(spec).unwrap();
            match charset_outcome(chars) {
                Some(Err(e)) => r == Err::<SpecCommand, SpecError>(SpecError::Charset(e)),
                Some(Ok(v)) => match r {
                    Ok(SpecCommand::AllExclusion(c)) => kind == 0 && all && charset_is(c, v),
                    Ok(SpecCommand::Exclusion(f, c)) => kind == 0 && !all && f@ == spec_fonts(spec) && charset_is(c, v),
                    Ok(SpecCommand::AllPreload(c)) => kind == 1 && all && charset_is(c, v),
                    Ok(SpecCommand::Preload(f, c)) => kind == 1 && !all && f@ == spec_fonts(spec) && charset_is(c, v),
                    Ok(SpecCommand::AllSubset(c)) => kind == 2 && all && charset_is(c, v),
                    Ok(SpecCommand::Stack(f, c)) => kind == 2 && !all && f@ == spec_fonts(spec) && charset_is(c, v),
                    _ => false,
                },
                None => false,
            }
        }
    }
}

/// Splits at the first `:`.
fn split_two_chars(s: &Vec<char>) -> (r: Option<(Vec<char>, Vec<char>)>)
    ensures
        match split_two(s@) {
            Some((a, b)) => r matches Some((x, y)) && x@ == a && y@ == b,
            None => r is None,
        },
{
    let sep = vec![':'];
    assert(sep@ =~= seq![':']);
    proof { crate::css_text::lemma_find_from(s@, sep@, 0); }
    match crate::css_text::find_chars(s, &sep, 0) {
        Some(i) => {
            let n = s.len();
            assert(i + 1 <= n);
            let a = slice_chars(s, 0, i);
            let b = slice_chars(s, i + 1, n);
            assert(a@ =~= s@.take(i as int));
            assert(b@ =~= s@.skip(i + 1));
            Some((a, b))
        },
        None => None,
    }
}

/// Reads a subset specification: `@path` includes a file of specifications; `exclude:` and
/// `preload:` mark code points to leave out or preload, in every font (`*:chars`) or in the
/// listed fonts (`fonts:chars`); anything else serves code points in every font (`*:chars`) or
/// from a font stack (`fonts:chars`).
pub fn parse_spec(spec: &str) -> (r: Result<SpecCommand, SpecError>)
    requires
        spec_readable(spec@),
    ensures
        spec_result_is(spec@, r),
{
    let text = chars_of(spec);
    proof {
        reveal_strlit("@");
        reveal_strlit("exclude:");
        reveal_strlit("preload:");
        reveal_strlit("*:");
    }
    if chars_start_with(&text, "@") {
        let path = slice_chars(&text, 1, text.len());
        assert(path@ =~= spec@.skip(1));
        return Ok(SpecCommand::Include(string_from_chars(&path)));
    }
    let kind: u8 = if chars_start_with(&text, "exclude:") { 0 } else if chars_start_with(&text, "preload:") { 1 } else { 2 };
    let rest = if kind < 2 { slice_chars(&text, 8, text.len()) } else { text.clone() };
    assert(rest@ =~= (if kind < 2 { spec@.skip(8) } else { spec@ }));
    let all = chars_start_with(&rest, "*:");
    let (fonts, chars) = if all {
        let c = slice_chars(&rest, 2, rest.len());
        assert(c@ =~= rest@.skip(2));
        (Vec::new(), c)
    } else {
        match split_two_chars(&rest) {
            Some((f, c)) => (f, c),
            None => return Err(SpecError::BadFormat),
        }
    };
    let chars_text = string_from_chars(&chars);
    let charset = match parse_charset(chars_text.as_str()) {
        Ok(c) => c,
        Err(e) => return Err(SpecError::Charset(e)),
    };
    let fonts_text = string_from_chars(&fonts);
    if kind == 0 {
        if all { Ok(SpecCommand::AllExclusion(charset)) } else { Ok(SpecCommand::Exclusion(fonts_text, charset)) }
    } else if kind == 1 {
        if all { Ok(SpecCommand::AllPreload(charset)) } else { Ok(SpecCommand::Preload(fonts_text, charset)) }
    } else {
        if all { Ok(SpecCommand::AllSubset(charset)) } else { Ok(SpecCommand::Stack(fonts_text, charset)) }
    }
}

/// A font as the plan sees it: its id, its family name and the code points it has glyphs for.
pub struct PlanFont {
    pub id: usize,
    pub family: String,
    pub codepoints: CharacterSet,
}

/// What the plan records for one font.
struct FontSubsets {
    subset: CharacterSet,
    exclusion: CharacterSet,
    preload: CharacterSet,
    range_exclusions: CharacterSet,
}

/// What the plan records for one font: the code points it serves, those it leaves out, those
/// it preloads, and those it must not claim because a later font of a stack serves them.
pub type FontSubsetsView = (Set<u32>, Set<u32>, Set<u32>, Set<u32>);

spec fn font_subsets_view(f: FontSubsets) -> FontSubsetsView {
    (f.subset@, f.exclusion@, f.preload@, f.range_exclusions@)
}

/// The record for a font, empty where there is none.
pub open spec fn entry_or_empty(m: Map<usize, FontSubsetsView>, id: usize) -> FontSubsetsView {
    if m.contains_key(id) { m[id] } else { (Set::empty(), Set::empty(), Set::empty(), Set::empty()) }
}

/// `v` with `bits` added to its part `field` (0 subset, 1 exclusion, 2 preload, 3 range
/// exclusions).
pub open spec fn with_field(v: FontSubsetsView, field: int, bits: Set<u32>) -> FontSubsetsView {
    if field == 0 {
        (v.0.union(bits), v.1, v.2, v.3)
    } else if field == 1 {
        (v.0, v.1.union(bits), v.2, v.3)
    } else if field == 2 {
        (v.0, v.1, v.2.union(bits), v.3)
    } else {
        (v.0, v.1, v.2, v.3.union(bits))
    }
}

/// The code points a font must serve: those assigned to it or to every font, less those left
/// out of it or of every font, that it has glyphs for; all of its code points when the plan is
/// disabled.
pub open spec fn used_chars(disabled: bool, info: FontSubsetsView, all_subset: Set<u32>, all_exclusion: Set<u32>,
    available: Set<u32>) -> Set<u32> {
    if disabled {
        available
    } else {
        info.0.union(all_subset).difference(info.1.union(all_exclusion)).intersect(available)
    }
}

/// The plan: per font, the code points to serve, leave out, preload and not claim; the same for
/// every font; and the code points that no font of some stack has, per stack of lowercased
/// family names.
pub struct AssignedSubsets {
    disabled: bool,
    assigned_subsets: HashMap<usize, FontSubsets>,
    all_subset: CharacterSet,
    all_exclusion: CharacterSet,
    all_preload: CharacterSet,
    fallback_required: CharacterSet,
    fallback_info: Vec<(Vec<String>, CharacterSet)>,
}

/// A stack of names as plain values.
pub open spec fn names_view(v: Vec<String>) -> Seq<Seq<char>> {
    v@.map_values(|s: String| s@)
}

/// The fallback table as a map from stack to code points.
pub open spec fn fallback_map(t: Seq<(Vec<String>, CharacterSet)>) -> Map<Seq<Seq<char>>, Set<u32>> {
    Map::new(
        |k: Seq<Seq<char>>| exists|i: int| 0 <= i < t.len() && names_view(#[trigger] t[i].0) == k,
        |k: Seq<Seq<char>>| t[choose|i: int| 0 <= i < t.len() && names_view(#[trigger] t[i].0) == k].1@,
    )
}

/// No stack occurs twice in the fallback table.
pub open spec fn unique_stacks(t: Seq<(Vec<String>, CharacterSet)>) -> bool {
    forall|i: int, j: int| 0 <= i < j < t.len() ==> names_view((#[trigger] t[i]).0) != names_view((#[trigger] t[j]).0)
}

impl AssignedSubsets {
    #[verifier::type_invariant]
    closed spec fn wf(&self) -> bool {
        unique_stacks(self.fallback_info@)
    }

    /// Whether planning is off: every font then serves all of its code points.
    pub closed spec fn is_disabled(&self) -> bool {
        self.disabled
    }

    /// What is recorded for each font, by id.
    pub closed spec fn fonts(&self) -> Map<usize, FontSubsetsView> {
        self.assigned_subsets@.map_values(|f: FontSubsets| font_subsets_view(f))
    }

    /// The code points every font serves.
    pub closed spec fn all_subset_view(&self) -> Set<u32> {
        self.all_subset@
    }

    /// The code points left out of every font.
    pub closed spec fn all_exclusion_view(&self) -> Set<u32> {
        self.all_exclusion@
    }

    /// The code points every font preloads.
    pub closed spec fn all_preload_view(&self) -> Set<u32> {
        self.all_preload@
    }

    /// The code points that no font of their stack has.
    pub closed spec fn fallback_required_view(&self) -> Set<u32> {
        self.fallback_required@
    }

    /// For each stack (by lowercased family names), the code points that none of its fonts has.
    pub closed spec fn fallback_info_view(&self) -> Map<Seq<Seq<char>>, Set<u32>> {
        fallback_map(self.fallback_info@)
    }

    /// An empty plan, switched on or off.
    fn empty(disabled: bool) -> (a: Self)
        ensures
            a.is_disabled() == disabled,
            a.fonts() == Map::<usize, FontSubsetsView>::empty(),
            a.all_subset_view() == Set::<u32>::empty(),
            a.all_exclusion_view() == Set::<u32>::empty(),
            a.all_preload_view() == Set::<u32>::empty(),
            a.fallback_required_view() == Set::<u32>::empty(),
            a.fallback_info_view() == Map::<Seq<Seq<char>>, Set<u32>>::empty(),
    {
        let a = AssignedSubsets {
            disabled,
            assigned_subsets: HashMap::new(),
            all_subset: CharacterSet::new(),
            all_exclusion: CharacterSet::new(),
            all_preload: CharacterSet::new(),
            fallback_required: CharacterSet::new(),
            fallback_info: Vec::new(),
        };
        assert(a.fonts() =~= Map::<usize, FontSubsetsView>::empty());
        assert(a.fallback_info_view() =~= Map::<Seq<Seq<char>>, Set<u32>>::empty());
        a
    }

    /// The plan that is switched off: every font serves all of its code points.
    pub fn disabled() -> (a: Self)
        ensures
            a.is_disabled(),
            a.fonts() == Map::<usize, FontSubsetsView>::empty(),
            a.fallback_required_view() == Set::<u32>::empty(),
            a.fallback_info_view() == Map::<Seq<Seq<char>>, Set<u32>>::empty(),
    {
        AssignedSubsets::empty(true)
    }

    /// A copy of what is recorded for a font.
    fn get_subset(&self, id: usize) -> (r: (CharacterSet, CharacterSet, CharacterSet, CharacterSet))
        ensures
            (r.0@, r.1@, r.2@, r.3@) == entry_or_empty(self.fonts(), id),
    {
        match self.assigned_subsets.get(&id) {
            Some(info) => (info.subset.clone(), info.exclusion.clone(), info.preload.clone(), info.range_exclusions.clone()),
            None => (CharacterSet::new(), CharacterSet::new(), CharacterSet::new(), CharacterSet::new()),
        }
    }

    /// The code points `font` must serve.
    pub fn get_used_chars(&self, font: &PlanFont) -> (r: CharacterSet)
        ensures
            r@ == used_chars(self.is_disabled(), entry_or_empty(self.fonts(), font.id), self.all_subset_view(),
                self.all_exclusion_view(), font.codepoints@),
    {
        if self.disabled {
            font.codepoints.clone()
        } else {
            let info = self.get_subset(font.id);
            let subsets = info.0.bitor(&self.all_subset);
            let excludes = info.1.bitor(&self.all_exclusion);
            subsets.sub(&excludes).bitand(&font.codepoints)
        }
    }

    /// The code points that `font` serves or must not claim; all of its code points when the
    /// plan is disabled.
    pub fn get_range_exclusion(&self, font: &PlanFont) -> (r: CharacterSet)
        ensures
            r@ == if self.is_disabled() {
                font.codepoints@
            } else {
                used_chars(false, entry_or_empty(self.fonts(), font.id), self.all_subset_view(),
                    self.all_exclusion_view(), font.codepoints@).union(entry_or_empty(self.fonts(), font.id).3)
            },
    {
        if self.disabled {
            font.codepoints.clone()
        } else {
            let info = self.get_subset(font.id);
            self.get_used_chars(font).bitor(&info.3)
        }
    }

    /// The code points `font` preloads: those it serves that are preloaded in it or in every
    /// font; none when the plan is disabled.
    pub fn get_preload_chars(&self, font: &PlanFont) -> (r: CharacterSet)
        ensures
            r@ == if self.is_disabled() {
                Set::<u32>::empty()
            } else {
                used_chars(false, entry_or_empty(self.fonts(), font.id), self.all_subset_view(),
                    self.all_exclusion_view(), font.codepoints@).intersect(
                    entry_or_empty(self.fonts(), font.id).2.union(self.all_preload_view()))
            },
    {
        if self.disabled {
            CharacterSet::new()
        } else {
            let info = self.get_subset(font.id);
            let preload = info.2.bitor(&self.all_preload);
            self.get_used_chars(font).bitand(&preload)
        }
    }

    /// The code points that no font of their stack has.
    pub fn get_fallback_chars(&self) -> (r: &CharacterSet)
        ensures
            r@ == self.fallback_required_view(),
    {
        &self.fallback_required
    }

    /// For each stack of lowercased family names, the code points that none of its fonts has.
    pub fn get_fallback_info(&self) -> (r: &[(Vec<String>, CharacterSet)])
        ensures
            fallback_map(r@) == self.fallback_info_view(),
            unique_stacks(r@),
    {
        proof { use_type_invariant(self); }
        self.fallback_info.as_slice()
    }
}

/// The ids of a list of fonts.
pub open spec fn font_ids(fonts: Seq<PlanFont>) -> Seq<usize> {
    fonts.map_values(|f: PlanFont| f.id)
}

/// `m` after every font whose id is in `ids` recorded `bits` in part `field`.
pub open spec fn extended(m: Map<usize, FontSubsetsView>, ids: Seq<usize>, field: int, bits: Set<u32>) -> Map<
    usize,
    FontSubsetsView,
> {
    Map::new(
        |x: usize| m.contains_key(x) || ids.contains(x),
        |x: usize| if ids.contains(x) { with_field(entry_or_empty(m, x), field, bits) } else { m[x] },
    )
}

/// Two plans that differ at most in what they record per font.
pub open spec fn same_but_fonts(a: AssignedSubsets, b: AssignedSubsets) -> bool {
    &&& a.is_disabled() == b.is_disabled()
    &&& a.all_subset_view() == b.all_subset_view()
    &&& a.all_exclusion_view() == b.all_exclusion_view()
    &&& a.all_preload_view() == b.all_preload_view()
    &&& a.fallback_required_view() == b.fallback_required_view()
    &&& a.fallback_info_view() == b.fallback_info_view()
}

/// Recording the same code points twice is recording them once.
proof fn lemma_with_field_twice(e: FontSubsetsView, field: int, bits: Set<u32>)
    ensures
        with_field(with_field(e, field, bits), field, bits) == with_field(e, field, bits),
{
    assert(e.0.union(bits).union(bits) =~= e.0.union(bits));
    assert(e.1.union(bits).union(bits) =~= e.1.union(bits));
    assert(e.2.union(bits).union(bits) =~= e.2.union(bits));
    assert(e.3.union(bits).union(bits) =~= e.3.union(bits));
}

/// Recording in one more font is one more insertion.
proof fn lemma_extended_step(m: Map<usize, FontSubsetsView>, ids: Seq<usize>, j: int, field: int, bits: Set<u32>)
    requires
        0 <= j < ids.len(),
    ensures
        extended(m, ids.take(j + 1), field, bits) == extended(m, ids.take(j), field, bits).insert(
            ids[j],
            with_field(entry_or_empty(extended(m, ids.take(j), field, bits), ids[j]), field, bits),
        ),
{
    let a = ids.take(j);
    let b = ids.take(j + 1);
    let x0 = ids[j];
    let prev = extended(m, a, field, bits);
    let want = prev.insert(x0, with_field(entry_or_empty(prev, x0), field, bits));
    let got = extended(m, b, field, bits);
    assert forall|x: usize| #[trigger] b.contains(x) == (a.contains(x) || x == x0) by {
        if b.contains(x) {
            let q = choose|q: int| 0 <= q < b.len() && b[q] == x;
            if q < j {
                assert(a[q] == x);
            }
        }
        if a.contains(x) {
            let q = choose|q: int| 0 <= q < a.len() && a[q] == x;
            assert(b[q] == x);
        }
        if x == x0 {
            assert(b[j] == x);
        }
    }
    assert(got.dom() =~= want.dom());
    assert forall|x: usize| #[trigger] got.contains_key(x) implies got[x] == want[x] by {
        if x == x0 && a.contains(x) {
            lemma_with_field_twice(entry_or_empty(m, x), field, bits);
        }
    }
    assert(got =~= want);
}

/// Recording in no font changes nothing.
proof fn lemma_extended_none(m: Map<usize, FontSubsetsView>, ids: Seq<usize>, field: int, bits: Set<u32>)
    ensures
        extended(m, ids.take(0), field, bits) == m,
{
    assert(ids.take(0) =~= Seq::<usize>::empty());
    assert(extended(m, ids.take(0), field, bits) =~= m);
}

impl AssignedSubsets {
    /// Records `bits` in part `field` (0 subset, 1 exclusion, 2 preload, 3 range exclusions) of
    /// font `id`, making its record if there is none.
    fn extend_font(&mut self, id: usize, bits: &CharacterSet, field: u8)
        requires
            field < 4,
        ensures
            final(self).fonts() == old(self).fonts().insert(
                id,
                with_field(entry_or_empty(old(self).fonts(), id), field as int, bits@),
            ),
            same_but_fonts(*final(self), *old(self)),
    {
        proof { use_type_invariant(&*self); }
        let mut table: HashMap<usize, FontSubsets> = HashMap::new();
        std::mem::swap(&mut table, &mut self.assigned_subsets);
        let ghost before = table@;
        let mut info = match table.remove(&id) {
            Some(info) => info,
            None => FontSubsets {
                subset: CharacterSet::new(),
                exclusion: CharacterSet::new(),
                preload: CharacterSet::new(),
                range_exclusions: CharacterSet::new(),
            },
        };
        let mut part = CharacterSet::new();
        if field == 0 {
            std::mem::swap(&mut part, &mut info.subset);
            info.subset = part.bitor(bits);
        } else if field == 1 {
            std::mem::swap(&mut part, &mut info.exclusion);
            info.exclusion = part.bitor(bits);
        } else if field == 2 {
            std::mem::swap(&mut part, &mut info.preload);
            info.preload = part.bitor(bits);
        } else {
            std::mem::swap(&mut part, &mut info.range_exclusions);
            info.range_exclusions = part.bitor(bits);
        }
        table.insert(id, info);
        self.assigned_subsets = table;
        proof {
            let want = old(self).fonts().insert(id, with_field(entry_or_empty(old(self).fonts(), id), field as int, bits@));
            assert(self.fonts().dom() =~= want.dom());
            assert(self.fonts() =~= want);
        }
    }
}

/// Under a table whose stacks are unique, the fallback map holds each row's code points under
/// its stack.
proof fn lemma_fallback_at(t: Seq<(Vec<String>, CharacterSet)>, i: int)
    requires
        unique_stacks(t),
        0 <= i < t.len(),
    ensures
        fallback_map(t).contains_key(names_view(t[i].0)),
        fallback_map(t)[names_view(t[i].0)] == t[i].1@,
{
    let k = names_view(t[i].0);
    assert(fallback_map(t).contains_key(k));
    let j = choose|j: int| 0 <= j < t.len() && names_view(#[trigger] t[j].0) == k;
    if j < i {
        assert(names_view(t[j].0) != names_view(t[i].0));
    } else if i < j {
        assert(names_view(t[i].0) != names_view(t[j].0));
    }
}

/// Whether two stacks hold the same names in the same order.
fn same_names(a: &Vec<String>, b: &Vec<String>) -> (r: bool)
    ensures
        r == (names_view(*a) == names_view(*b)),
{
    if a.len() != b.len() {
        proof {
            assert(names_view(*a).len() != names_view(*b).len());
        }
        return false;
    }
    let mut i: usize = 0;
    while i < a.len()
        invariant
            a@.len() == b@.len(),
            i <= a@.len(),
            forall|q: int| 0 <= q < i ==> (#[trigger] a@[q])@ == b@[q]@,
        decreases a@.len() - i,
    {
        if a[i] != b[i] {
            proof {
                assert(names_view(*a)[i as int] != names_view(*b)[i as int]);
            }
            return false;
        }
        i = i + 1;
    }
    proof {
        assert(names_view(*a) =~= names_view(*b));
    }
    true
}

impl AssignedSubsets {
    /// Adds `bits` to the code points that every font serves (0), leaves out (1) or preloads
    /// (2), or to those that need a fallback (3).
    fn add_to_all(&mut self, which: u8, bits: &CharacterSet)
        requires
            which < 4,
        ensures
            final(self).is_disabled() == old(self).is_disabled(),
            final(self).fonts() == old(self).fonts(),
            final(self).fallback_info_view() == old(self).fallback_info_view(),
            final(self).all_subset_view() == if which == 0 {
                old(self).all_subset_view().union(bits@)
            } else {
                old(self).all_subset_view()
            },
            final(self).all_exclusion_view() == if which == 1 {
                old(self).all_exclusion_view().union(bits@)
            } else {
                old(self).all_exclusion_view()
            },
            final(self).all_preload_view() == if which == 2 {
                old(self).all_preload_view().union(bits@)
            } else {
                old(self).all_preload_view()
            },
            final(self).fallback_required_view() == if which == 3 {
                old(self).fallback_required_view().union(bits@)
            } else {
                old(self).fallback_required_view()
            },
    {
        proof { use_type_invariant(&*self); }
        let mut part = CharacterSet::new();
        if which == 0 {
            std::mem::swap(&mut part, &mut self.all_subset);
            self.all_subset = part.bitor(bits);
        } else if which == 1 {
            std::mem::swap(&mut part, &mut self.all_exclusion);
            self.all_exclusion = part.bitor(bits);
        } else if which == 2 {
            std::mem::swap(&mut part, &mut self.all_preload);
            self.all_preload = part.bitor(bits);
        } else {
            std::mem::swap(&mut part, &mut self.fallback_required);
            self.fallback_required = part.bitor(bits);
        }
    }

    /// Adds `bits` to the code points that the stack `key` needs a fallback for.
    fn merge_fallback(&mut self, key: Vec<String>, bits: &CharacterSet)
        ensures
            final(self).fallback_info_view() == old(self).fallback_info_view().insert(
                names_view(key),
                if old(self).fallback_info_view().contains_key(names_view(key)) {
                    old(self).fallback_info_view()[names_view(key)].union(bits@)
                } else {
                    bits@
                },
            ),
            final(self).is_disabled() == old(self).is_disabled(),
            final(self).fonts() == old(self).fonts(),
            final(self).all_subset_view() == old(self).all_subset_view(),
            final(self).all_exclusion_view() == old(self).all_exclusion_view(),
            final(self).all_preload_view() == old(self).all_preload_view(),
            final(self).fallback_required_view() == old(self).fallback_required_view(),
    {
        proof { use_type_invariant(&*self); }
        let ghost k = names_view(key);
        let ghost before = fallback_map(self.fallback_info@);
        let ghost value = if before.contains_key(k) { before[k].union(bits@) } else { bits@ };
        let mut table: Vec<(Vec<String>, CharacterSet)> = Vec::new();
        std::mem::swap(&mut table, &mut self.fallback_info);
        let ghost t0 = table@;
        let mut pos: usize = 0;
        while pos < table.len()
            invariant
                pos <= table@.len(),
                table@ == t0,
                k == names_view(key),
                forall|q: int| 0 <= q < pos ==> names_view((#[trigger] table@[q]).0) != k,
            ensures
                pos <= table@.len(),
                table@ == t0,
                forall|q: int| 0 <= q < pos ==> names_view((#[trigger] table@[q]).0) != k,
                pos < table@.len() ==> names_view(table@[pos as int].0) == k,
            decreases table@.len() - pos,
        {
            if same_names(&table[pos].0, &key) {
                break;
            }
            pos = pos + 1;
        }
        if pos < table.len() {
            proof { lemma_fallback_at(t0, pos as int); }
            let merged = table[pos].1.clone().bitor(bits);
            table.set(pos, (key, merged));
            proof {
                let t1 = table@;
                assert forall|i: int, j: int| 0 <= i < j < t1.len() implies
                    names_view((#[trigger] t1[i]).0) != names_view((#[trigger] t1[j]).0) by {
                    assert(names_view(t1[i].0) == names_view(t0[i].0));
                    assert(names_view(t1[j].0) == names_view(t0[j].0));
                    assert(names_view(t0[i].0) != names_view(t0[j].0));
                }
                let want = before.insert(k, value);
                assert forall|q: Seq<Seq<char>>| #[trigger] fallback_map(t1).contains_key(q) == want.contains_key(q) by {
                    if fallback_map(t1).contains_key(q) {
                        let i = choose|i: int| 0 <= i < t1.len() && names_view(#[trigger] t1[i].0) == q;
                        assert(names_view(t0[i].0) == q);
                    }
                    if before.contains_key(q) {
                        let i = choose|i: int| 0 <= i < t0.len() && names_view(#[trigger] t0[i].0) == q;
                        assert(names_view(t1[i].0) == q);
                    }
                }
                assert(fallback_map(t1).dom() =~= want.dom());
                assert forall|q: Seq<Seq<char>>| #[trigger] fallback_map(t1).contains_key(q) implies
                    fallback_map(t1)[q] == want[q] by {
                    let i = choose|i: int| 0 <= i < t1.len() && names_view(#[trigger] t1[i].0) == q;
                    lemma_fallback_at(t1, i);
                    if i != pos {
                        lemma_fallback_at(t0, i);
                    }
                }
                assert(fallback_map(t1) =~= want);
            }
        } else {
            table.push((key, bits.clone()));
            proof {
                let t1 = table@;
                let n0 = t0.len() as int;
                assert(!before.contains_key(k)) by {
                    if before.contains_key(k) {
                        let i = choose|i: int| 0 <= i < t0.len() && names_view(#[trigger] t0[i].0) == k;
                        assert(names_view(t0[i].0) != k);
                    }
                }
                assert forall|i: int, j: int| 0 <= i < j < t1.len() implies
                    names_view((#[trigger] t1[i]).0) != names_view((#[trigger] t1[j]).0) by {
                    if j < n0 {
                        assert(t1[i] == t0[i]);
                        assert(t1[j] == t0[j]);
                    } else {
                        assert(t1[i] == t0[i]);
                    }
                }
                let want = before.insert(k, value);
                assert forall|q: Seq<Seq<char>>| #[trigger] fallback_map(t1).contains_key(q) == want.contains_key(q) by {
                    if fallback_map(t1).contains_key(q) {
                        let i = choose|i: int| 0 <= i < t1.len() && names_view(#[trigger] t1[i].0) == q;
                        if i < n0 {
                            assert(t1[i] == t0[i]);
                        }
                    }
                    if before.contains_key(q) {
                        let i = choose|i: int| 0 <= i < t0.len() && names_view(#[trigger] t0[i].0) == q;
                        assert(t1[i] == t0[i]);
                    }
                    if q == k {
                        assert(names_view(t1[n0].0) == k);
                    }
                }
                assert(fallback_map(t1).dom() =~= want.dom());
                assert forall|q: Seq<Seq<char>>| #[trigger] fallback_map(t1).contains_key(q) implies
                    fallback_map(t1)[q] == want[q] by {
                    let i = choose|i: int| 0 <= i < t1.len() && names_view(#[trigger] t1[i].0) == q;
                    lemma_fallback_at(t1, i);
                    if i < n0 {
                        assert(t1[i] == t0[i]);
                        lemma_fallback_at(t0, i);
                    }
                }
                assert(fallback_map(t1) =~= want);
            }
        }
        self.fallback_info = table;
    }
}

/// No font list of a stack may be empty.
#[derive(Copy, Clone, Debug, PartialEq, Eq, Structural)]
pub struct EmptyFontList;

impl EmptyFontList {
    /// The error message.
    pub fn message(&self) -> (m: String)
        ensures
            m@ == "Fonts lists cannot be empty!"@,
    {
        String::from_str("Fonts lists cannot be empty!")
    }
}

/// The code points that every font of a list has.
pub open spec fn covered_by_all(list: Seq<PlanFont>) -> Set<u32> {
    Set::new(|c: u32| forall|j: int| 0 <= j < list.len() ==> (#[trigger] list[j]).codepoints@.contains(c))
}

/// What each list of a stack covers.
pub open spec fn lists_covered(lists: Seq<Vec<PlanFont>>) -> Seq<Set<u32>> {
    lists.map_values(|l: Vec<PlanFont>| covered_by_all(l@))
}

/// The font ids of each list of a stack.
pub open spec fn lists_ids(lists: Seq<Vec<PlanFont>>) -> Seq<Seq<usize>> {
    lists.map_values(|l: Vec<PlanFont>| font_ids(l@))
}

/// `m` after the lists before position `k` recorded, in each of their fonts, what they serve.
pub open spec fn stack_served(
    m: Map<usize, FontSubsetsView>,
    text: Set<u32>,
    avail: Seq<Set<u32>>,
    ids: Seq<Seq<usize>>,
    k: nat,
) -> Map<usize, FontSubsetsView>
    decreases k,
{
    if k == 0 {
        m
    } else {
        extended(stack_served(m, text, avail, ids, (k - 1) as nat), ids[k - 1], 0, fulfilled(text, avail, k - 1))
    }
}

/// `m` after the fonts of the lists before position `j` recorded `bits`, which list `i` serves,
/// as range exclusions: each at the places that list `i` has fonts at.
pub open spec fn shadow_row(m: Map<usize, FontSubsetsView>, ids: Seq<Seq<usize>>, i: int, j: nat, bits: Set<u32>) -> Map<
    usize,
    FontSubsetsView,
>
    decreases j,
{
    if j == 0 {
        m
    } else {
        extended(shadow_row(m, ids, i, (j - 1) as nat, bits), ids[j - 1].take(ids[i].len() as int), 3, bits)
    }
}

/// `m` after each list before position `k` had what it serves recorded as range exclusions in
/// the lists before it.
pub open spec fn stack_shadowed(
    m: Map<usize, FontSubsetsView>,
    text: Set<u32>,
    avail: Seq<Set<u32>>,
    ids: Seq<Seq<usize>>,
    k: nat,
) -> Map<usize, FontSubsetsView>
    decreases k,
{
    if k == 0 {
        m
    } else {
        shadow_row(stack_shadowed(m, text, avail, ids, (k - 1) as nat), ids, k - 1, (k - 1) as nat,
            fulfilled(text, avail, k - 1))
    }
}

/// The lowercased family names of a list of fonts.
pub open spec fn stack_key(list: Seq<PlanFont>) -> Seq<Seq<char>> {
    list.map_values(|f: PlanFont| lowercase(f.family@))
}

/// Some list of `lists` has the key `k`.
pub open spec fn keyed(lists: Seq<Vec<PlanFont>>, k: Seq<Seq<char>>) -> bool {
    exists|i: int| 0 <= i < lists.len() && stack_key((#[trigger] lists[i])@) == k
}

/// The fallback table `t` after `bits` were added under the key of each list.
pub open spec fn with_fallback(t: Map<Seq<Seq<char>>, Set<u32>>, lists: Seq<Vec<PlanFont>>, bits: Set<u32>) -> Map<
    Seq<Seq<char>>,
    Set<u32>,
> {
    Map::new(
        |k: Seq<Seq<char>>| t.contains_key(k) || keyed(lists, k),
        |k: Seq<Seq<char>>| if keyed(lists, k) {
            (if t.contains_key(k) { t[k] } else { Set::empty() }).union(bits)
        } else {
            t[k]
        },
    )
}

/// The fonts of a stack can be walked as the plan does: each list has at least as many fonts
/// as any list after it.
pub open spec fn lists_narrow(lists: Seq<Vec<PlanFont>>) -> bool {
    forall|i: int, j: int| 0 <= j < i < lists.len() ==> (#[trigger] lists[i])@.len() <= (#[trigger] lists[j])@.len()
}

/// Some list of the stack is empty.
pub open spec fn has_empty_list(lists: Seq<Vec<PlanFont>>) -> bool {
    exists|i: int| 0 <= i < lists.len() && (#[trigger] lists[i])@.len() == 0
}

/// Builds a subset plan from stacks, exclusions and preloads.
pub struct SubsetDataBuilder {
    subsets: AssignedSubsets,
}

impl SubsetDataBuilder {
    /// The plan built so far.
    pub closed spec fn plan(&self) -> AssignedSubsets {
        self.subsets
    }

    /// A builder with an empty plan that is switched on.
    pub fn new() -> (b: Self)
        ensures
            !b.plan().is_disabled(),
            b.plan().fonts() == Map::<usize, FontSubsetsView>::empty(),
            b.plan().all_subset_view() == Set::<u32>::empty(),
            b.plan().all_exclusion_view() == Set::<u32>::empty(),
            b.plan().all_preload_view() == Set::<u32>::empty(),
            b.plan().fallback_required_view() == Set::<u32>::empty(),
            b.plan().fallback_info_view() == Map::<Seq<Seq<char>>, Set<u32>>::empty(),
    {
        SubsetDataBuilder { subsets: AssignedSubsets::empty(false) }
    }

    /// Records `bits` in part `field` of the first `count` fonts of `fonts`.
    fn extend_fonts(&mut self, fonts: &[PlanFont], count: usize, bits: &CharacterSet, field: u8)
        requires
            count <= fonts@.len(),
            field < 4,
        ensures
            final(self).plan().fonts() == extended(old(self).plan().fonts(), font_ids(fonts@).take(count as int),
                field as int, bits@),
            same_but_fonts(final(self).plan(), old(self).plan()),
    {
        let ghost m0 = self.plan().fonts();
        let ghost ids = font_ids(fonts@);
        proof { lemma_extended_none(m0, ids, field as int, bits@); }
        let mut j: usize = 0;
        while j < count
            invariant
                count <= fonts@.len(),
                field < 4,
                ids == font_ids(fonts@),
                j <= count,
                self.plan().fonts() == extended(m0, ids.take(j as int), field as int, bits@),
                same_but_fonts(self.plan(), old(self).plan()),
            decreases count - j,
        {
            self.subsets.extend_font(fonts[j].id, bits, field);
            proof {
                lemma_extended_step(m0, ids, j as int, field as int, bits@);
            }
            j = j + 1;
        }
    }

    /// Leaves the code points of `text` out of each of `fonts`.
    pub fn push_exclusion(&mut self, text: CharacterSet, fonts: &[PlanFont])
        ensures
            final(self).plan().fonts() == extended(old(self).plan().fonts(), font_ids(fonts@), 1, text@),
            same_but_fonts(final(self).plan(), old(self).plan()),
    {
        self.extend_fonts(fonts, fonts.len(), &text, 1);
        proof { assert(font_ids(fonts@).take(fonts@.len() as int) =~= font_ids(fonts@)); }
    }

    /// Preloads the code points of `text` in each of `fonts`.
    pub fn push_preload(&mut self, text: CharacterSet, fonts: &[PlanFont])
        ensures
            final(self).plan().fonts() == extended(old(self).plan().fonts(), font_ids(fonts@), 2, text@),
            same_but_fonts(final(self).plan(), old(self).plan()),
    {
        self.extend_fonts(fonts, fonts.len(), &text, 2);
        proof { assert(font_ids(fonts@).take(fonts@.len() as int) =~= font_ids(fonts@)); }
    }

    /// Every font serves the code points of `text`.
    pub fn push_all_subset(&mut self, text: CharacterSet)
        ensures
            final(self).plan().all_subset_view() == old(self).plan().all_subset_view().union(text@),
            final(self).plan().is_disabled() == old(self).plan().is_disabled(),
            final(self).plan().fonts() == old(self).plan().fonts(),
            final(self).plan().all_exclusion_view() == old(self).plan().all_exclusion_view(),
            final(self).plan().all_preload_view() == old(self).plan().all_preload_view(),
            final(self).plan().fallback_required_view() == old(self).plan().fallback_required_view(),
            final(self).plan().fallback_info_view() == old(self).plan().fallback_info_view(),
    {
        self.subsets.add_to_all(0, &text);
    }

    /// Every font leaves out the code points of `text`.
    pub fn push_all_exclusion(&mut self, text: CharacterSet)
        ensures
            final(self).plan().all_exclusion_view() == old(self).plan().all_exclusion_view().union(text@),
            final(self).plan().is_disabled() == old(self).plan().is_disabled(),
            final(self).plan().fonts() == old(self).plan().fonts(),
            final(self).plan().all_subset_view() == old(self).plan().all_subset_view(),
            final(self).plan().all_preload_view() == old(self).plan().all_preload_view(),
            final(self).plan().fallback_required_view() == old(self).plan().fallback_required_view(),
            final(self).plan().fallback_info_view() == old(self).plan().fallback_info_view(),
    {
        self.subsets.add_to_all(1, &text);
    }

    /// Every font preloads the code points of `text`.
    pub fn push_all_preload(&mut self, text: CharacterSet)
        ensures
            final(self).plan().all_preload_view() == old(self).plan().all_preload_view().union(text@),
            final(self).plan().is_disabled() == old(self).plan().is_disabled(),
            final(self).plan().fonts() == old(self).plan().fonts(),
            final(self).plan().all_subset_view() == old(self).plan().all_subset_view(),
            final(self).plan().all_exclusion_view() == old(self).plan().all_exclusion_view(),
            final(self).plan().fallback_required_view() == old(self).plan().fallback_required_view(),
            final(self).plan().fallback_info_view() == old(self).plan().fallback_info_view(),
    {
        self.subsets.add_to_all(2, &text);
    }

    /// Shares the code points of `text` out along a stack of font lists. Each list serves, in
    /// every one of its fonts, the code points of the text that all of its fonts have and that
    /// no earlier list served. Each font of an earlier list records, as range exclusions, what a
    /// later list serves, at the places that the later list has fonts at. What no list serves
    /// needs a fallback, and is recorded under the lowercased family names of each list.
    /// Fails at the first empty list: the lists before it have then recorded what they serve,
    /// and nothing else has changed.
    pub fn push_stack(&mut self, text: CharacterSet, fonts: &[Vec<PlanFont>]) -> (r: Result<(), EmptyFontList>)
        requires
            !has_empty_list(fonts@) ==> lists_narrow(fonts@),
        ensures
            r is Err <==> has_empty_list(fonts@),
            r is Err ==> exists|e: int|
                0 <= e < fonts@.len() && (#[trigger] fonts@[e])@.len() == 0 && (forall|q: int|
                    0 <= q < e ==> (#[trigger] fonts@[q])@.len() > 0) && final(self).plan().fonts() == stack_served(
                    old(self).plan().fonts(),
                    text@,
                    lists_covered(fonts@),
                    lists_ids(fonts@),
                    e as nat,
                ),
            r is Err ==> same_but_fonts(final(self).plan(), old(self).plan()),
            r is Ok ==> final(self).plan().fonts() == stack_shadowed(
                stack_served(old(self).plan().fonts(), text@, lists_covered(fonts@), lists_ids(fonts@), fonts@.len()),
                text@,
                lists_covered(fonts@),
                lists_ids(fonts@),
                fonts@.len(),
            ),
            r is Ok ==> final(self).plan().fallback_required_view() == old(self).plan().fallback_required_view().union(
                remaining(text@, lists_covered(fonts@), fonts@.len()),
            ),
            r is Ok ==> final(self).plan().fallback_info_view() == with_fallback(
                old(self).plan().fallback_info_view(),
                fonts@,
                remaining(text@, lists_covered(fonts@), fonts@.len()),
            ),
            final(self).plan().is_disabled() == old(self).plan().is_disabled(),
            final(self).plan().all_subset_view() == old(self).plan().all_subset_view(),
            final(self).plan().all_exclusion_view() == old(self).plan().all_exclusion_view(),
            final(self).plan().all_preload_view() == old(self).plan().all_preload_view(),
    {
        let ghost m0 = self.plan().fonts();
        let ghost t = text@;
        let ghost avail = lists_covered(fonts@);
        let ghost ids = lists_ids(fonts@);
        let n = fonts.len();
        let mut reverse_pass: Vec<CharacterSet> = Vec::new();
        let mut current = text.clone();
        let mut i: usize = 0;
        while i < n
            invariant
                n == fonts@.len(),
                i <= n,
                m0 == old(self).plan().fonts(),
                t == text@,
                avail == lists_covered(fonts@),
                ids == lists_ids(fonts@),
                current@ == remaining(t, avail, i as nat),
                reverse_pass@.len() == i,
                forall|k: int| 0 <= k < i ==> (#[trigger] reverse_pass@[k])@ == fulfilled(t, avail, k),
                forall|k: int| 0 <= k < i ==> (#[trigger] fonts@[k])@.len() > 0,
                self.plan().fonts() == stack_served(m0, t, avail, ids, i as nat),
                same_but_fonts(self.plan(), old(self).plan()),
            decreases n - i,
        {
            let list = fonts[i].as_slice();
            if list.len() == 0 {
                proof {
                    assert(fonts@[i as int]@.len() == 0);
                    assert(has_empty_list(fonts@));
                    assert(0 <= i < fonts@.len() && fonts@[i as int]@.len() == 0 && (forall|q: int|
                        0 <= q < i ==> (#[trigger] fonts@[q])@.len() > 0) && self.plan().fonts() == stack_served(
                        m0, t, avail, ids, i as nat));
                }
                return Err(EmptyFontList);
            }
            let mut covered = list[0].codepoints.clone();
            proof {
                let a = list@.take(1);
                assert(a[0] == list@[0]);
                assert forall|c: u32| #[trigger] covered@.contains(c) == covered_by_all(a).contains(c) by {
                    if covered@.contains(c) {
                        assert forall|q: int| 0 <= q < a.len() implies (#[trigger] a[q]).codepoints@.contains(c) by {}
                    }
                }
                assert(covered@ =~= covered_by_all(a));
            }
            let mut j: usize = 1;
            while j < list.len()
                invariant
                    1 <= j <= list@.len(),
                    covered@ == covered_by_all(list@.take(j as int)),
                decreases list@.len() - j,
            {
                let ghost before = covered@;
                covered = covered.bitand(&list[j].codepoints);
                proof {
                    let a = list@.take(j as int);
                    let b = list@.take(j + 1);
                    assert forall|c: u32| #[trigger] covered@.contains(c) == covered_by_all(b).contains(c) by {
                        if covered_by_all(a).contains(c) && list@[j as int].codepoints@.contains(c) {
                            assert forall|q: int| 0 <= q < b.len() implies (#[trigger] b[q]).codepoints@.contains(c) by {
                                if q < j {
                                    assert(b[q] == a[q]);
                                }
                            }
                        }
                        if covered_by_all(b).contains(c) {
                            assert forall|q: int| 0 <= q < a.len() implies (#[trigger] a[q]).codepoints@.contains(c) by {
                                assert(b[q] == a[q]);
                            }
                            assert(b[j as int] == list@[j as int]);
                        }
                    }
                    assert(covered@ =~= covered_by_all(b));
                }
                j = j + 1;
            }
            let fulfilled_codepoints = covered.bitand(&current);
            proof {
                assert(list@.take(list@.len() as int) =~= list@);
                assert(avail[i as int] == covered_by_all(fonts@[i as int]@));
                assert(fulfilled_codepoints@ =~= fulfilled(t, avail, i as int));
            }
            self.extend_fonts(list, list.len(), &fulfilled_codepoints, 0);
            proof {
                assert(font_ids(list@).take(list@.len() as int) =~= ids[i as int]);
            }
            reverse_pass.push(fulfilled_codepoints.clone());
            current = current.sub(&fulfilled_codepoints);
            proof {
                assert(current@ =~= remaining(t, avail, (i + 1) as nat));
            }
            i = i + 1;
        }
        proof {
            assert(!has_empty_list(fonts@)) by {
                if has_empty_list(fonts@) {
                    let e = choose|e: int| 0 <= e < fonts@.len() && (#[trigger] fonts@[e])@.len() == 0;
                    assert(fonts@[e]@.len() > 0);
                }
            }
        }
        let ghost rem = current@;
        let ghost fi0 = self.plan().fallback_info_view();
        let ghost fr0 = self.plan().fallback_required_view();
        if !current.is_empty() {
            self.subsets.add_to_all(3, &current);
        } else {
            proof {
                assert(fr0.union(rem) =~= fr0);
            }
        }

        let ghost base = self.plan().fonts();
        i = 0;
        while i < n
            invariant
                n == fonts@.len(),
                i <= n,
                avail == lists_covered(fonts@),
                ids == lists_ids(fonts@),
                lists_narrow(fonts@),
                reverse_pass@.len() == n,
                forall|k: int| 0 <= k < n ==> (#[trigger] reverse_pass@[k])@ == fulfilled(t, avail, k),
                base == stack_served(m0, t, avail, ids, n as nat),
                self.plan().fonts() == stack_shadowed(base, t, avail, ids, i as nat),
                self.plan().is_disabled() == old(self).plan().is_disabled(),
                self.plan().all_subset_view() == old(self).plan().all_subset_view(),
                self.plan().all_exclusion_view() == old(self).plan().all_exclusion_view(),
                self.plan().all_preload_view() == old(self).plan().all_preload_view(),
                self.plan().fallback_required_view() == fr0.union(rem),
                self.plan().fallback_info_view() == fi0,
            decreases n - i,
        {
            let mut j: usize = 0;
            while j < i
                invariant
                    n == fonts@.len(),
                    j <= i < n,
                    ids == lists_ids(fonts@),
                    lists_narrow(fonts@),
                    reverse_pass@.len() == n,
                    reverse_pass@[i as int]@ == fulfilled(t, avail, i as int),
                    self.plan().fonts() == shadow_row(stack_shadowed(base, t, avail, ids, i as nat), ids, i as int,
                        j as nat, fulfilled(t, avail, i as int)),
                    self.plan().is_disabled() == old(self).plan().is_disabled(),
                    self.plan().all_subset_view() == old(self).plan().all_subset_view(),
                    self.plan().all_exclusion_view() == old(self).plan().all_exclusion_view(),
                    self.plan().all_preload_view() == old(self).plan().all_preload_view(),
                    self.plan().fallback_required_view() == fr0.union(rem),
                    self.plan().fallback_info_view() == fi0,
                decreases i - j,
            {
                proof {
                    assert(fonts@[i as int]@.len() <= fonts@[j as int]@.len());
                }
                self.extend_fonts(fonts[j].as_slice(), fonts[i].len(), &reverse_pass[i], 3);
                proof {
                    assert(ids[j as int] == font_ids(fonts@[j as int]@));
                    assert(ids[i as int].len() == fonts@[i as int]@.len());
                }
                j = j + 1;
            }
            i = i + 1;
        }

        i = 0;
        proof {
            assert(with_fallback(fi0, fonts@.take(0), rem) =~= fi0);
        }
        while i < n
            invariant
                n == fonts@.len(),
                i <= n,
                current@ == rem,
                self.plan().fonts() == stack_shadowed(base, t, avail, ids, n as nat),
                self.plan().is_disabled() == old(self).plan().is_disabled(),
                self.plan().all_subset_view() == old(self).plan().all_subset_view(),
                self.plan().all_exclusion_view() == old(self).plan().all_exclusion_view(),
                self.plan().all_preload_view() == old(self).plan().all_preload_view(),
                self.plan().fallback_required_view() == fr0.union(rem),
                self.plan().fallback_info_view() == with_fallback(fi0, fonts@.take(i as int), rem),
            decreases n - i,
        {
            let list = fonts[i].as_slice();
            let mut key: Vec<String> = Vec::new();
            let mut j: usize = 0;
            while j < list.len()
                invariant
                    j <= list@.len(),
                    names_view(key) == stack_key(list@.take(j as int)),
                decreases list@.len() - j,
            {
                let lower = to_lowercase(list[j].family.as_str());
                proof {
                    assert(lower@ == lowercase(list@[j as int].family@));
                }
                let ghost pk = key@;
                key.push(lower);
                proof {
                    let b = list@.take(j + 1);
                    assert(pk.map_values(|s: String| s@).len() == j);
                    assert(key@ == pk.push(lower));
                    assert forall|q: int| 0 <= q < j + 1 implies names_view(key)[q] == stack_key(b)[q] by {
                        if q < j {
                            assert(key@[q] == pk[q]);
                            assert(pk.map_values(|s: String| s@)[q] == stack_key(list@.take(j as int))[q]);
                            assert(b[q] == list@.take(j as int)[q]);
                        } else {
                            assert(key@[q] == lower);
                        }
                    }
                    assert(names_view(key) =~= stack_key(list@.take(j + 1)));
                }
                j = j + 1;
            }
            proof {
                assert(list@.take(list@.len() as int) =~= list@);
            }
            let ghost k = names_view(key);
            let ghost prev = self.plan().fallback_info_view();
            self.subsets.merge_fallback(key, &current);
            proof {
                let a = fonts@.take(i as int);
                let b = fonts@.take(i + 1);
                let want = with_fallback(fi0, b, rem);
                assert(k == stack_key(b[i as int]@));
                assert forall|q: Seq<Seq<char>>| #[trigger] keyed(b, q) == (keyed(a, q) || q == k) by {
                    if keyed(b, q) {
                        let w = choose|w: int| 0 <= w < b.len() && stack_key((#[trigger] b[w])@) == q;
                        if w < i {
                            assert(a[w] == b[w]);
                        }
                    }
                    if keyed(a, q) {
                        let w = choose|w: int| 0 <= w < a.len() && stack_key((#[trigger] a[w])@) == q;
                        assert(a[w] == b[w]);
                    }
                }
                let got = self.plan().fallback_info_view();
                assert(got.dom() =~= want.dom());
                assert forall|q: Seq<Seq<char>>| #[trigger] got.contains_key(q) implies got[q] == want[q] by {
                    if q == k && keyed(a, q) {
                        let o = if fi0.contains_key(q) { fi0[q] } else { Set::<u32>::empty() };
                        assert(o.union(rem).union(rem) =~= o.union(rem));
                    }
                    if q == k && !keyed(a, q) {
                        assert(got[q] =~= want[q]);
                    }
                }
                assert(got =~= want);
            }
            i = i + 1;
        }
        proof {
            assert(fonts@.take(n as int) =~= fonts@);
        }
        Ok(())
    }

    /// The plan.
    pub fn build(self) -> (a: AssignedSubsets)
        ensures
            a == self.plan(),
    {
        self.subsets
    }
}

} // verus!
