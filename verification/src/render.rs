//! Naming and describing webfont subsets: file names derived from the font's names and the
//! subset's content hash, and the `@font-face` stylesheet that loads them.
use vstd::prelude::*;
use core::ops::RangeInclusive;
use roaring::RoaringBitmap;
use crate::text::{
    chars_of, char_is_alphanumeric, char_is_numeric, is_alphanumeric_char, is_numeric_char,
    len_utf8, utf8_len, char_utf8_len, string_from_chars, lowercase, to_lowercase, hex_upper,
    push_hex_upper, push_str, push_chars, char_code,
};
use crate::hashing::{blake3_hash, fragment_of, hash_fragment};
use crate::text::{contains_sub, hex_digit_char};
use crate::gfsubsets::{hex_number, hex_digit_value};
use crate::ranges::{decode_range, decodable_set, separated_ranges, covers, range_start, range_end};
use crate::roaring_bitmap::roaring_contents;
use crate::fonts::{FontStyle, FontWeight, style_css, weight_css, digits_value, law_weight_css};

verus! {

/// The alphanumeric characters of `s`, in order.
pub open spec fn alnum_only(s: Seq<char>) -> Seq<char>
    decreases s.len(),
{
    if s.len() == 0 {
        Seq::empty()
    } else {
        let p = alnum_only(s.drop_last());
        if is_alphanumeric_char(s.last()) { p.push(s.last()) } else { p }
    }
}

/// `s` cut at 20 bytes: its shortest prefix that takes exactly 20 bytes in UTF-8, or all of `s`
/// when no prefix does.
pub open spec fn cap_20_bytes(s: Seq<char>) -> Seq<char> {
    if exists|k: int| 0 <= k <= s.len() && #[trigger] utf8_len(s.take(k)) == 20 {
        s.take(choose|k: int| 0 <= k <= s.len() && #[trigger] utf8_len(s.take(k)) == 20)
    } else {
        s
    }
}

/// The name fragment used in file names: the alphanumeric characters of `s`, cut at 20 bytes.
pub open spec fn extract_name_spec(s: Seq<char>) -> Seq<char> {
    cap_20_bytes(alnum_only(s))
}

proof fn lemma_utf8_len_take_step(s: Seq<char>, k: int)
    requires
        0 <= k < s.len(),
    ensures
        utf8_len(s.take(k + 1)) == utf8_len(s.take(k)) + char_utf8_len(s[k]),
        utf8_len(s.take(k + 1)) > utf8_len(s.take(k)),
{
    assert(s.take(k + 1).drop_last() == s.take(k));
}

proof fn lemma_utf8_len_take_strict(s: Seq<char>, a: int, b: int)
    requires
        0 <= a < b <= s.len(),
    ensures
        utf8_len(s.take(a)) < utf8_len(s.take(b)),
    decreases b - a,
{
    lemma_utf8_len_take_step(s, b - 1);
    if a < b - 1 {
        lemma_utf8_len_take_strict(s, a, b - 1);
    }
}

/// When a prefix of `s` takes exactly 20 bytes, it is the one that `cap_20_bytes` keeps.
proof fn lemma_cap_at(s: Seq<char>, k: int)
    requires
        0 <= k <= s.len(),
        utf8_len(s.take(k)) == 20,
    ensures
        cap_20_bytes(s) == s.take(k),
{
    let c = choose|j: int| 0 <= j <= s.len() && #[trigger] utf8_len(s.take(j)) == 20;
    if c < k {
        lemma_utf8_len_take_strict(s, c, k);
    } else if k < c {
        lemma_utf8_len_take_strict(s, k, c);
    }
}

/// When no prefix of `s` takes exactly 20 bytes, `cap_20_bytes` keeps all of it.
proof fn lemma_cap_none(s: Seq<char>)
    requires
        forall|k: int| 0 <= k <= s.len() ==> #[trigger] utf8_len(s.take(k)) != 20,
    ensures
        cap_20_bytes(s) == s,
{
}

proof fn lemma_alnum_prefix(s: Seq<char>, j: int)
    requires
        0 <= j <= s.len(),
    ensures
        alnum_only(s).take(alnum_only(s.take(j)).len() as int) == alnum_only(s.take(j)),
        alnum_only(s.take(j)).len() <= alnum_only(s).len(),
    decreases s.len(),
{
    if j == s.len() {
        assert(s.take(j) == s);
    } else {
        let d = s.drop_last();
        assert(s.take(j) == d.take(j));
        lemma_alnum_prefix(d, j);
    }
}

/// Keeps the alphanumeric characters of `s`, stopping once they take exactly 20 bytes.
pub fn extract_name(s: &str) -> (out: String)
    ensures
        out@ == extract_name_spec(s@),
{
    let chars = chars_of(s);
    let mut out: Vec<char> = Vec::new();
    let mut bytes: usize = 0;
    let mut i: usize = 0;
    while i < chars.len()
        invariant
            i <= chars@.len(),
            chars@ == s@,
            out@ == alnum_only(chars@.take(i as int)),
            bytes == (if utf8_len(out@) > 21 { 21 } else { utf8_len(out@) }),
            forall|k: int| 0 <= k <= out@.len() ==> #[trigger] utf8_len(out@.take(k)) != 20,
        decreases chars@.len() - i,
    {
        let c = chars[i];
        let ghost before = out@;
        assert(chars@.take(i + 1).drop_last() == chars@.take(i as int));
        if char_is_alphanumeric(c) {
            out.push(c);
            let n = len_utf8(c);
            bytes = if bytes + n > 21 { 21 } else { bytes + n };
            proof {
                assert(out@.drop_last() == before);
                assert(out@.take(out@.len() as int) == out@);
            }
        }
        if bytes == 20 {
            proof {
                assert(out@.take(out@.len() as int) == out@);
                lemma_alnum_prefix(chars@, i + 1);
                let f = alnum_only(chars@);
                assert(f.take(out@.len() as int) == out@);
                lemma_cap_at(f, out@.len() as int);
            }
            return string_from_chars(&out);
        }
        proof {
            assert forall|k: int| 0 <= k <= out@.len() implies #[trigger] utf8_len(out@.take(k)) != 20 by {
                if k < out@.len() {
                    assert(out@.take(k) == before.take(k));
                } else {
                    assert(out@.take(k) == out@);
                }
            }
        }
        i = i + 1;
    }
    assert(chars@.take(chars@.len() as int) == chars@);
    proof { lemma_cap_none(out@); }
    string_from_chars(&out)
}

/// The ASCII lowercase form of a character; other characters are unchanged.
pub open spec fn ascii_lower(c: char) -> char {
    if 'A' <= c <= 'Z' { ((c as int) + 32) as char } else { c }
}

/// `s` starts with "version " in any ASCII letter case. (A string's lowercase form starts with
/// "version " exactly when its first eight characters are these ASCII letters in some case: no
/// other character lowercases to one of them.)
pub open spec fn has_version_prefix(s: Seq<char>) -> bool {
    s.len() >= 8 && s.take(8).map_values(|c: char| ascii_lower(c)) == "version "@
}

/// The longest prefix of `s` made of numeric characters and dots.
pub open spec fn numeric_run(s: Seq<char>) -> Seq<char>
    decreases s.len(),
{
    if s.len() == 0 {
        Seq::empty()
    } else if is_numeric_char(s[0]) || s[0] == '.' {
        seq![s[0]] + numeric_run(s.drop_first())
    } else {
        Seq::empty()
    }
}

/// `s` without its leading dots.
pub open spec fn trim_leading_dots(s: Seq<char>) -> Seq<char>
    decreases s.len(),
{
    if s.len() > 0 && s[0] == '.' { trim_leading_dots(s.drop_first()) } else { s }
}

/// `s` without its trailing dots.
pub open spec fn trim_trailing_dots(s: Seq<char>) -> Seq<char>
    decreases s.len(),
{
    if s.len() > 0 && s.last() == '.' { trim_trailing_dots(s.drop_last()) } else { s }
}

/// The version fragment used in file names: after an optional "version " prefix, the leading
/// run of numeric characters and dots, cut at 20 bytes, without leading and trailing dots.
pub open spec fn extract_version_spec(s: Seq<char>) -> Seq<char> {
    let rest = if has_version_prefix(s) { s.skip(8) } else { s };
    trim_trailing_dots(trim_leading_dots(cap_20_bytes(numeric_run(rest))))
}

proof fn lemma_numeric_run_prefix(s: Seq<char>, i: int)
    requires
        0 <= i <= s.len(),
        forall|k: int| 0 <= k < i ==> is_numeric_char(#[trigger] s[k]) || s[k] == '.',
    ensures
        numeric_run(s).len() >= i,
        numeric_run(s).take(i) == s.take(i),
    decreases i,
{
    if i > 0 {
        assert(is_numeric_char(s[0]) || s[0] == '.');
        assert forall|k: int| 0 <= k < i - 1 implies is_numeric_char(#[trigger] s.drop_first()[k]) || s.drop_first()[k] == '.' by {
            assert(s.drop_first()[k] == s[k + 1]);
        }
        lemma_numeric_run_prefix(s.drop_first(), i - 1);
        let r = numeric_run(s.drop_first());
        assert(numeric_run(s) == seq![s[0]] + r);
        assert forall|k: int| 0 <= k < i implies numeric_run(s)[k] == s[k] by {
            if k > 0 {
                assert(r.take(i - 1)[k - 1] == s.drop_first().take(i - 1)[k - 1]);
                assert(s.drop_first()[k - 1] == s[k]);
            }
        }
        assert(numeric_run(s).take(i) =~= s.take(i));
    }
}

proof fn lemma_numeric_run_stop(s: Seq<char>, i: int)
    requires
        0 <= i <= s.len(),
        forall|k: int| 0 <= k < i ==> is_numeric_char(#[trigger] s[k]) || s[k] == '.',
        i == s.len() || !(is_numeric_char(s[i]) || s[i] == '.'),
    ensures
        numeric_run(s) == s.take(i),
    decreases i,
{
    if i > 0 {
        assert(is_numeric_char(s[0]) || s[0] == '.');
        assert forall|k: int| 0 <= k < i - 1 implies is_numeric_char(#[trigger] s.drop_first()[k]) || s.drop_first()[k] == '.' by {
            assert(s.drop_first()[k] == s[k + 1]);
        }
        if i < s.len() {
            assert(s.drop_first()[i - 1] == s[i]);
        }
        lemma_numeric_run_stop(s.drop_first(), i - 1);
        assert(numeric_run(s) == seq![s[0]] + numeric_run(s.drop_first()));
        assert(numeric_run(s) =~= s.take(i));
    } else {
        assert(numeric_run(s) =~= s.take(0));
    }
}

fn trim_dots(s: &Vec<char>) -> (r: Vec<char>)
    ensures
        r@ == trim_trailing_dots(trim_leading_dots(s@)),
{
    let mut a: usize = 0;
    assert(s@.skip(0) == s@);
    while a < s.len() && s[a] == '.'
        invariant
            a <= s@.len(),
            trim_leading_dots(s@) == trim_leading_dots(s@.skip(a as int)),
        decreases s@.len() - a,
    {
        assert(s@.skip(a as int).drop_first() == s@.skip(a + 1));
        a = a + 1;
    }
    let ghost lead = s@.skip(a as int);
    assert(trim_leading_dots(lead) == lead);
    let mut b: usize = s.len();
    while b > a && s[b - 1] == '.'
        invariant
            a <= b <= s@.len(),
            trim_trailing_dots(lead) == trim_trailing_dots(s@.subrange(a as int, b as int)),
            lead == s@.subrange(a as int, s@.len() as int),
        decreases b,
    {
        assert(s@.subrange(a as int, b as int).drop_last() == s@.subrange(a as int, b - 1));
        b = b - 1;
    }
    let ghost mid = s@.subrange(a as int, b as int);
    assert(trim_trailing_dots(mid) == mid);
    let mut r: Vec<char> = Vec::new();
    let mut k: usize = a;
    while k < b
        invariant
            a <= k <= b <= s@.len(),
            r@ == s@.subrange(a as int, k as int),
        decreases b - k,
    {
        r.push(s[k]);
        assert(s@.subrange(a as int, k + 1) == s@.subrange(a as int, k as int).push(s@[k as int]));
        k = k + 1;
    }
    r
}

fn has_version_prefix_exec(s: &Vec<char>) -> (b: bool)
    ensures
        b == has_version_prefix(s@),
{
    if s.len() < 8 {
        return false;
    }
    let target = chars_of("version ");
    proof { reveal_strlit("version "); }
    let mut i: usize = 0;
    while i < 8
        invariant
            i <= 8,
            s@.len() >= 8,
            target@ == "version "@,
            target@.len() == 8,
            forall|k: int| 0 <= k < i ==> ascii_lower(s@[k]) == target@[k],
        decreases 8 - i,
    {
        let c = s[i];
        let code = crate::text::char_code(c);
        let lower = if 'A' <= c && c <= 'Z' { core::char::from_u32(code + 32).unwrap() } else { c };
        let lower_code = crate::text::char_code(lower);
        proof {
            if 'A' <= c && c <= 'Z' {
                assert(lower_code as int == code + 32);
            }
        }
        if lower != target[i] {
            assert(s@.take(8).map_values(|c: char| ascii_lower(c))[i as int] != "version "@[i as int]);
            return false;
        }
        i = i + 1;
    }
    assert(s@.take(8).map_values(|c: char| ascii_lower(c)) =~= "version "@);
    true
}

fn version_digits(all: &Vec<char>, start: usize) -> (out: Vec<char>)
    requires
        start <= all@.len(),
    ensures
        out@ == cap_20_bytes(numeric_run(all@.skip(start as int))),
{
    let ghost rest = all@.skip(start as int);
    let mut out: Vec<char> = Vec::new();
    let mut bytes: usize = 0;
    let mut i: usize = start;
    while i < all.len()
        invariant
            start <= i <= all@.len(),
            rest == all@.skip(start as int),
            out@ == rest.take(i - start),
            forall|k: int| 0 <= k < i - start ==> is_numeric_char(#[trigger] rest[k]) || rest[k] == '.',
            bytes == (if utf8_len(out@) > 21 { 21 } else { utf8_len(out@) }),
            forall|k: int| 0 <= k <= out@.len() ==> #[trigger] utf8_len(out@.take(k)) != 20,
        decreases all@.len() - i,
    {
        let c = all[i];
        assert(rest[i - start] == c);
        if char_is_numeric(c) || c == '.' {
            let ghost before = out@;
            out.push(c);
            let n = len_utf8(c);
            bytes = if bytes + n > 21 { 21 } else { bytes + n };
            assert(rest.take(i + 1 - start) == rest.take(i - start).push(c));
            proof {
                assert(out@.drop_last() == before);
                assert(out@.take(out@.len() as int) == out@);
                assert forall|k: int| 0 <= k < out@.len() implies #[trigger] utf8_len(out@.take(k)) != 20 by {
                    assert(out@.take(k) == before.take(k));
                }
            }
            if bytes == 20 {
                proof {
                    lemma_numeric_run_prefix(rest, i + 1 - start);
                    lemma_cap_at(numeric_run(rest), out@.len() as int);
                }
                return out;
            }
        } else {
            proof {
                lemma_numeric_run_stop(rest, i - start);
                lemma_cap_none(out@);
            }
            return out;
        }
        i = i + 1;
    }
    proof {
        lemma_numeric_run_stop(rest, i - start);
        lemma_cap_none(out@);
    }
    out
}

/// Extracts the version number from a font's version string (such as "Version 2.001;...").
pub fn extract_version(s: &str) -> (out: String)
    ensures
        out@ == extract_version_spec(s@),
{
    let all = chars_of(s);
    let start: usize = if has_version_prefix_exec(&all) { 8 } else { 0 };
    assert(all@.skip(0) == all@);
    let digits = version_digits(&all, start);
    string_from_chars(&trim_dots(&digits))
}

proof fn lemma_alnum_only(s: Seq<char>)
    ensures
        forall|i: int| 0 <= i < alnum_only(s).len() ==> is_alphanumeric_char(#[trigger] alnum_only(s)[i]),
    decreases s.len(),
{
    if s.len() > 0 {
        lemma_alnum_only(s.drop_last());
        let p = alnum_only(s.drop_last());
        assert forall|i: int| 0 <= i < alnum_only(s).len() implies is_alphanumeric_char(#[trigger] alnum_only(s)[i]) by {
            if i < p.len() { assert(alnum_only(s)[i] == p[i]); }
        }
    }
}

proof fn lemma_cap_prefix(s: Seq<char>)
    ensures
        cap_20_bytes(s).len() <= s.len(),
        s.take(cap_20_bytes(s).len() as int) == cap_20_bytes(s),
        cap_20_bytes(s) == s || utf8_len(cap_20_bytes(s)) == 20,
{
    if exists|k: int| 0 <= k <= s.len() && #[trigger] utf8_len(s.take(k)) == 20 {
        let k = choose|k: int| 0 <= k <= s.len() && #[trigger] utf8_len(s.take(k)) == 20;
        assert(s.take(k).len() == k);
        assert(s.take(k).take(k) =~= s.take(k));
    } else {
        assert(s.take(s.len() as int) =~= s);
    }
}

/// The name fragment of a file name keeps only alphanumeric characters, in the order of the
/// name: it starts the name's alphanumeric characters, and is all of them or exactly 20 bytes.
pub proof fn law_extract_name(s: Seq<char>)
    ensures
        forall|i: int| 0 <= i < extract_name_spec(s).len() ==> is_alphanumeric_char(#[trigger] extract_name_spec(s)[i]),
        alnum_only(s).take(extract_name_spec(s).len() as int) == extract_name_spec(s),
        extract_name_spec(s) == alnum_only(s) || utf8_len(extract_name_spec(s)) == 20,
{
    lemma_alnum_only(s);
    lemma_cap_prefix(alnum_only(s));
    let a = alnum_only(s);
    let e = extract_name_spec(s);
    assert forall|i: int| 0 <= i < e.len() implies is_alphanumeric_char(#[trigger] e[i]) by {
        assert(e[i] == a.take(e.len() as int)[i]);
    }
}

proof fn lemma_numeric_run_chars(s: Seq<char>)
    ensures
        forall|i: int| 0 <= i < numeric_run(s).len() ==> is_numeric_char(#[trigger] numeric_run(s)[i]) || numeric_run(s)[i] == '.',
    decreases s.len(),
{
    if s.len() > 0 && (is_numeric_char(s[0]) || s[0] == '.') {
        lemma_numeric_run_chars(s.drop_first());
        let r = numeric_run(s.drop_first());
        assert forall|i: int| 0 <= i < numeric_run(s).len() implies is_numeric_char(#[trigger] numeric_run(s)[i]) || numeric_run(s)[i] == '.' by {
            if i > 0 { assert(numeric_run(s)[i] == r[i - 1]); }
        }
    }
}

proof fn lemma_trim_leading(s: Seq<char>)
    ensures
        trim_leading_dots(s).len() <= s.len(),
        trim_leading_dots(s) == s.skip(s.len() - trim_leading_dots(s).len()),
        trim_leading_dots(s).len() > 0 ==> trim_leading_dots(s)[0] != '.',
    decreases s.len(),
{
    if s.len() > 0 && s[0] == '.' {
        lemma_trim_leading(s.drop_first());
        let t = trim_leading_dots(s.drop_first());
        assert(s.drop_first().skip(s.drop_first().len() - t.len()) =~= s.skip(s.len() - t.len()));
    } else {
        assert(s.skip(0) =~= s);
    }
}

proof fn lemma_trim_trailing(s: Seq<char>)
    ensures
        trim_trailing_dots(s).len() <= s.len(),
        trim_trailing_dots(s) == s.take(trim_trailing_dots(s).len() as int),
        trim_trailing_dots(s).len() > 0 ==> trim_trailing_dots(s).last() != '.',
    decreases s.len(),
{
    if s.len() > 0 && s.last() == '.' {
        lemma_trim_trailing(s.drop_last());
        let t = trim_trailing_dots(s.drop_last());
        assert(s.drop_last().take(t.len() as int) =~= s.take(t.len() as int));
    } else {
        assert(s.take(s.len() as int) =~= s);
    }
}

/// The version fragment of a file name holds only numeric characters and dots, and neither
/// starts nor ends with a dot.
pub proof fn law_extract_version(s: Seq<char>)
    ensures
        forall|i: int| 0 <= i < extract_version_spec(s).len() ==> is_numeric_char(#[trigger] extract_version_spec(s)[i])
            || extract_version_spec(s)[i] == '.',
        extract_version_spec(s).len() > 0 ==> extract_version_spec(s)[0] != '.' && extract_version_spec(s).last() != '.',
{
    let rest = if has_version_prefix(s) { s.skip(8) } else { s };
    let n = numeric_run(rest);
    lemma_numeric_run_chars(rest);
    lemma_cap_prefix(n);
    let c = cap_20_bytes(n);
    let l = trim_leading_dots(c);
    lemma_trim_leading(c);
    lemma_trim_trailing(l);
    let v = trim_trailing_dots(l);
    assert(v == extract_version_spec(s));
    assert forall|i: int| 0 <= i < v.len() implies is_numeric_char(#[trigger] v[i]) || v[i] == '.' by {
        assert(v[i] == l.take(v.len() as int)[i]);
        let j = c.len() - l.len() + i;
        assert(l[i] == c.skip(c.len() - l.len())[i]);
        assert(c[j] == n.take(c.len() as int)[j]);
    }
    if v.len() > 0 {
        assert(v[0] == l.take(v.len() as int)[0]);
    }
}

/// The file name of a subset: the font's name, its style unless it is regular (or "Variable" for
/// a variable font), its version, the subset's name and the hash fragment of its data.
pub open spec fn subset_file_name_spec(
    family: Seq<char>,
    style: Seq<char>,
    version: Seq<char>,
    is_variable: bool,
    name: Seq<char>,
    woff2: Seq<u8>,
) -> Seq<char> {
    let font_name = extract_name_spec(family);
    let font_style = extract_name_spec(style);
    let font_version = extract_version_spec(version);
    let is_regular = lowercase(font_style) == "regular"@;
    let sep = if !is_regular || is_variable { "_"@ } else { Seq::<char>::empty() };
    let tag = if is_variable { "Variable"@ } else if !is_regular { font_style } else { Seq::<char>::empty() };
    font_name + sep + tag + "_"@ + font_version + "_"@ + name + "_"@ + fragment_of(blake3_hash(woff2))
        + ".woff2"@
}

/// A subset's file name starts with the font's name fragment and ends with `_`, the subset's name,
/// `_`, the hash fragment of its data and `.woff2`; a variable font's name fragment is followed by
/// `_Variable_`.
pub proof fn law_subset_file_name(
    family: Seq<char>,
    style: Seq<char>,
    version: Seq<char>,
    is_variable: bool,
    name: Seq<char>,
    woff2: Seq<u8>,
)
    ensures
        ({
            let f = subset_file_name_spec(family, style, version, is_variable, name, woff2);
            let head = extract_name_spec(family);
            let tail = "_"@ + name + "_"@ + fragment_of(blake3_hash(woff2)) + ".woff2"@;
            &&& f.len() >= head.len() + tail.len()
            &&& f.take(head.len() as int) == head
            &&& f.skip(f.len() - tail.len()) == tail
            &&& is_variable ==> f.subrange(head.len() as int, (head.len() + 10) as int) == "_Variable_"@
        }),
{
    reveal_strlit("_");
    reveal_strlit("Variable");
    reveal_strlit("_Variable_");
    let f = subset_file_name_spec(family, style, version, is_variable, name, woff2);
    let font_name = extract_name_spec(family);
    let font_style = extract_name_spec(style);
    let font_version = extract_version_spec(version);
    let is_regular = lowercase(font_style) == "regular"@;
    let sep = if !is_regular || is_variable { "_"@ } else { Seq::<char>::empty() };
    let tag = if is_variable { "Variable"@ } else if !is_regular { font_style } else { Seq::<char>::empty() };
    let tail = "_"@ + name + "_"@ + fragment_of(blake3_hash(woff2)) + ".woff2"@;
    let mid = sep + tag + "_"@ + font_version;
    assert(f =~= font_name + mid + tail);
    assert(f.take(font_name.len() as int) =~= font_name);
    assert(f.skip(f.len() - tail.len()) =~= tail);
    if is_variable {
        assert(mid.take(10) =~= "_Variable_"@);
        assert(f.subrange(font_name.len() as int, (font_name.len() + 10) as int) =~= mid.take(10));
    }
}

/// The file name for a subset named `name` of the given font, holding the data `woff2`.
pub fn subset_file_name(
    family: &str,
    style: &str,
    version: &str,
    is_variable: bool,
    name: &str,
    woff2: &[u8],
) -> (f: String)
    ensures
        f@ == subset_file_name_spec(family@, style@, version@, is_variable, name@, woff2@),
{
    let hash_str = hash_fragment(woff2);
    let font_name = extract_name(family);
    let font_style = extract_name(style);
    let font_version = extract_version(version);
    let lower = to_lowercase(font_style.as_str());
    let lower_chars = chars_of(lower.as_str());
    let regular = chars_of("regular");
    let is_regular = crate::text::chars_eq(&lower_chars, &regular);
    let mut out: Vec<char> = Vec::new();
    push_str(&mut out, font_name.as_str());
    if !is_regular || is_variable {
        push_str(&mut out, "_");
    }
    if is_variable {
        push_str(&mut out, "Variable");
    } else if !is_regular {
        push_str(&mut out, font_style.as_str());
    }
    push_str(&mut out, "_");
    push_str(&mut out, font_version.as_str());
    push_str(&mut out, "_");
    push_str(&mut out, name);
    push_str(&mut out, "_");
    push_str(&mut out, hash_str.as_str());
    push_str(&mut out, ".woff2");
    proof {
        let font_name_s = extract_name_spec(family@);
        let font_style_s = extract_name_spec(style@);
        let is_regular_s = lowercase(font_style_s) == "regular"@;
        assert(is_regular == is_regular_s);
        let sep = if !is_regular_s || is_variable { "_"@ } else { Seq::<char>::empty() };
        let tag = if is_variable { "Variable"@ } else if !is_regular_s { font_style_s } else { Seq::<char>::empty() };
        assert(out@ =~= font_name_s + sep + tag + "_"@ + extract_version_spec(version@) + "_"@ + name@ + "_"@
            + fragment_of(blake3_hash(woff2@)) + ".woff2"@);
    }
    string_from_chars(&out)
}

/// One range in CSS `unicode-range` syntax: `U+X` for a single character, `U+X-Y` otherwise,
/// in uppercase hexadecimal.
pub open spec fn range_css(r: RangeInclusive<char>) -> Seq<char> {
    if r@.start == r@.end {
        "U+"@ + hex_upper(r@.start as nat)
    } else {
        "U+"@ + hex_upper(r@.start as nat) + "-"@ + hex_upper(r@.end as nat)
    }
}

/// A list of ranges in CSS `unicode-range` syntax, separated by ", ".
pub open spec fn ranges_css(r: Seq<RangeInclusive<char>>) -> Seq<char>
    decreases r.len(),
{
    if r.len() == 0 {
        Seq::empty()
    } else if r.len() == 1 {
        range_css(r[0])
    } else {
        ranges_css(r.drop_last()) + ", "@ + range_css(r.last())
    }
}

proof fn lemma_hex_digit_reads_back(d: int)
    requires
        0 <= d < 16,
    ensures
        hex_digit_value(hex_digit_char(d)) == d,
{
}

/// The uppercase hexadecimal text of a number reads back as that number: every character is a
/// hexadecimal digit, and the digits' value is the number.
pub proof fn lemma_hex_upper_reads_back(n: nat)
    ensures
        hex_upper(n).len() > 0,
        forall|i: int| 0 <= i < hex_upper(n).len() ==> hex_digit_value(#[trigger] hex_upper(n)[i]) >= 0,
        hex_number(hex_upper(n)) == n,
    decreases n,
{
    lemma_hex_digit_reads_back((n % 16) as int);
    if n < 16 {
        lemma_hex_digit_reads_back(n as int);
    }
    if n >= 16 {
        lemma_hex_upper_reads_back(n / 16);
        let h = hex_upper(n);
        assert(h.drop_last() =~= hex_upper(n / 16));
        assert(h.last() == hex_digit_char((n % 16) as int));
        assert(n == (n / 16) * 16 + n % 16) by (nonlinear_arith);
        assert(hex_number(h) == hex_number(h.drop_last()) * 16 + hex_digit_value(h.last()));
        assert(hex_number(h.drop_last()) == n / 16);
        assert forall|i: int| 0 <= i < h.len() implies hex_digit_value(#[trigger] h[i]) >= 0 by {
            if i < h.len() - 1 {
                assert(h[i] == hex_upper(n / 16)[i]);
            }
        }
    } else {
        let h = hex_upper(n);
        assert(h.drop_last() =~= Seq::<char>::empty());
        assert(hex_number(h) == hex_number(h.drop_last()) * 16 + hex_digit_value(h.last()));
        assert(hex_number(Seq::<char>::empty()) == 0);
    }
}

/// A `unicode-range` entry reads back as its range: it starts with `U+`; a range of one code point
/// is `U+` and that code point in hexadecimal; a longer one is `U+`, the first code point, `-`
/// and the last code point, each in hexadecimal.
pub proof fn law_range_css_reads_back(r: RangeInclusive<char>)
    ensures
        range_css(r).len() > 2,
        range_css(r).take(2) == "U+"@,
        r@.start == r@.end ==> hex_number(range_css(r).skip(2)) == r@.start as nat
            && forall|i: int| 2 <= i < range_css(r).len() ==> hex_digit_value(#[trigger] range_css(r)[i]) >= 0,
        r@.start != r@.end ==> exists|k: int| 2 < k < range_css(r).len() - 1 && #[trigger] range_css(r)[k] == '-'
            && hex_number(range_css(r).subrange(2, k)) == r@.start as nat
            && hex_number(range_css(r).skip(k + 1)) == r@.end as nat,
{
    reveal_strlit("U+");
    reveal_strlit("-");
    crate::text::lemma_char_scalar(r@.start);
    crate::text::lemma_char_scalar(r@.end);
    let a = hex_upper(r@.start as nat);
    let b = hex_upper(r@.end as nat);
    lemma_hex_upper_reads_back(r@.start as nat);
    lemma_hex_upper_reads_back(r@.end as nat);
    let t = range_css(r);
    assert(t.take(2) =~= "U+"@);
    if r@.start == r@.end {
        assert(t =~= "U+"@ + a);
        assert(t.skip(2) =~= a);
        assert forall|i: int| 2 <= i < t.len() implies hex_digit_value(#[trigger] t[i]) >= 0 by {
            assert(t[i] == a[i - 2]);
        }
    } else {
        let k: int = (2 + a.len()) as int;
        assert(t[k] == '-');
        assert(t.subrange(2, k) =~= a);
        assert(t =~= "U+"@ + a + "-"@ + b);
        assert(t.skip(k + 1) =~= b);
        assert(range_css(r)[k] == '-');
    }
}

/// Appends the ranges in CSS `unicode-range` syntax to `out`.
pub fn push_ranges_css(out: &mut Vec<char>, ranges: &Vec<RangeInclusive<char>>)
    ensures
        final(out)@ == old(out)@ + ranges_css(ranges@),
{
    let mut i: usize = 0;
    while i < ranges.len()
        invariant
            i <= ranges@.len(),
            out@ == old(out)@ + ranges_css(ranges@.take(i as int)),
        decreases ranges@.len() - i,
    {
        let ghost before = out@;
        let r = &ranges[i];
        if i > 0 {
            push_str(out, ", ");
        }
        let start = range_start(r);
        let end = range_end(r);
        push_str(out, "U+");
        push_hex_upper(out, char_code(start));
        if start != end {
            push_str(out, "-");
            push_hex_upper(out, char_code(end));
        }
        proof {
            let t = ranges@.take(i + 1);
            assert(t.drop_last() == ranges@.take(i as int));
            assert(t.last() == ranges@[i as int]);
            if i == 0 {
                assert(ranges@.take(0) =~= Seq::<RangeInclusive<char>>::empty());
                assert(out@ =~= old(out)@ + ranges_css(t));
            } else {
                assert(out@ =~= old(out)@ + ranges_css(t));
            }
        }
        i = i + 1;
    }
    assert(ranges@.take(ranges@.len() as int) == ranges@);
}

/// The characters of a string as `Debug` formats it: quoted, with escapes.
pub uninterp spec fn debug_quoted(s: Seq<char>) -> Seq<char>;

/// Formats a string with `<str as Debug>::fmt` (through `format!("{:?}")`): the result is a
/// function of the string's characters alone.
#[verifier::external_body]
pub(crate) fn debug_str(s: &str) -> (r: String)
    ensures
        r@ == debug_quoted(s@),
{
    format!("{:?}", s)
}

/// One subset of a webfont: its name, file name, characters and encoded data.
pub struct SubsetInfo {
    name: String,
    file_name: String,
    subset: RoaringBitmap,
    subset_ranges: Vec<RangeInclusive<char>>,
    woff2_data: Vec<u8>,
}

impl SubsetInfo {
    pub closed spec fn name_view(&self) -> Seq<char> { self.name@ }
    pub closed spec fn file_name_view(&self) -> Seq<char> { self.file_name@ }
    pub closed spec fn chars(&self) -> Set<u32> { roaring_contents(self.subset) }
    pub closed spec fn ranges(&self) -> Seq<RangeInclusive<char>> { self.subset_ranges@ }
    pub closed spec fn data(&self) -> Seq<u8> { self.woff2_data@ }

    /// The ranges describe exactly the subset's characters.
    pub closed spec fn wf(&self) -> bool {
        &&& separated_ranges(self.subset_ranges@)
        &&& forall|x: u32| roaring_contents(self.subset).contains(x) <==> #[trigger] covers(self.subset_ranges@, x as int)
    }

    /// Describes the subset `name` of a font (given by its family, style and version names and
    /// whether it is variable) that holds the characters `subset`, encoded as `woff2_data`.
    pub fn new(
        family: &str,
        style: &str,
        version: &str,
        is_variable: bool,
        name: &str,
        subset: RoaringBitmap,
        woff2_data: Vec<u8>,
    ) -> (s: Self)
        requires
            decodable_set(roaring_contents(subset)),
        ensures
            s.wf(),
            s.name_view() == name@,
            s.file_name_view() == subset_file_name_spec(family@, style@, version@, is_variable, name@, woff2_data@),
            s.chars() == roaring_contents(subset),
            s.data() == woff2_data@,
    {
        let file_name = subset_file_name(family, style, version, is_variable, name, woff2_data.as_slice());
        let subset_ranges = decode_range(&subset);
        SubsetInfo { name: name.to_owned(), file_name, subset, subset_ranges, woff2_data }
    }

    /// The name of the subset.
    pub fn name(&self) -> (s: &str)
        ensures s@ == self.name_view(),
    {
        self.name.as_str()
    }

    /// The file name that this subset will be saved to.
    pub fn file_name(&self) -> (s: &str)
        ensures s@ == self.file_name_view(),
    {
        self.file_name.as_str()
    }

    /// The characters this subset applies to.
    pub fn subset(&self) -> (b: &RoaringBitmap)
        ensures roaring_contents(*b) == self.chars(),
    {
        &self.subset
    }

    /// The .woff2 data.
    pub fn woff2_data(&self) -> (d: &[u8])
        ensures d@ == self.data(),
    {
        self.woff2_data.as_slice()
    }
}

/// The `@font-face` rule for one subset.
#[verifier::opaque]
pub open spec fn font_face_css(
    family: Seq<char>,
    style: FontStyle,
    weight: FontWeight,
    store_uri: Seq<char>,
    entry: SubsetInfo,
) -> Seq<char> {
    "@font-face {\n"@
        + "\tfont-family: "@ + debug_quoted(family) + ";\n"@
        + style_weight_css(style, weight)
        + "\tunicode-range: "@ + ranges_css(entry.ranges()) + ";\n"@
        + "\tsrc: url("@ + debug_quoted(store_uri + entry.file_name_view()) + ") format(\"woff2\");\n"@
        + "}\n"@
}

/// The stylesheet for a list of subsets: one `@font-face` rule per subset, in order.
pub open spec fn stylesheet_css(
    family: Seq<char>,
    style: FontStyle,
    weight: FontWeight,
    store_uri: Seq<char>,
    entries: Seq<SubsetInfo>,
) -> Seq<char>
    decreases entries.len(),
{
    if entries.len() == 0 {
        Seq::empty()
    } else {
        stylesheet_css(family, style, weight, store_uri, entries.drop_last())
            + font_face_css(family, style, weight, store_uri, entries.last())
    }
}

/// The `style` and `weight` lines of a `@font-face` rule.
pub open spec fn style_weight_css(style: FontStyle, weight: FontWeight) -> Seq<char> {
    (if style != FontStyle::Regular { "\tfont-style: "@ + style_css(style) + ";\n"@ } else { Seq::empty() })
        + (if weight != FontWeight::Regular { "\tfont-weight: "@ + weight_css(weight) + ";\n"@ } else { Seq::empty() })
}

/// A rule says the face's style on a `font-style` line exactly when the style is not regular:
/// an italic face says `italic`, an oblique one `oblique`, and that line comes first. Likewise a
/// weight other than regular is said on a `font-weight` line, which comes last; a regular face of
/// regular weight has neither line.
pub proof fn law_style_weight_lines(style: FontStyle, weight: FontWeight)
    ensures
        style == FontStyle::Italic ==> style_weight_css(style, weight).len() >= 21
            && style_weight_css(style, weight).take(21) == "\tfont-style: italic;\n"@,
        style == FontStyle::Oblique ==> style_weight_css(style, weight).len() >= 22
            && style_weight_css(style, weight).take(22) == "\tfont-style: oblique;\n"@,
        style == FontStyle::Regular ==> style_weight_css(style, weight).len() == 0
            || style_weight_css(style, weight).take(14) == "\tfont-weight: "@,
        weight == FontWeight::Bold ==> style_weight_css(style, weight).len() >= 20
            && style_weight_css(style, weight).skip(style_weight_css(style, weight).len() - 20) == "\tfont-weight: bold;\n"@,
        style == FontStyle::Regular && weight == FontWeight::Regular ==> style_weight_css(style, weight).len() == 0,
        style == FontStyle::Italic && weight == FontWeight::Regular ==> style_weight_css(style, weight)
            == "\tfont-style: italic;\n"@,
        style == FontStyle::Oblique && weight == FontWeight::Regular ==> style_weight_css(style, weight)
            == "\tfont-style: oblique;\n"@,
        weight matches FontWeight::Numeric(n) ==> {
            let sw = style_weight_css(style, weight);
            let line = "\tfont-weight: "@ + weight_css(weight) + ";\n"@;
            &&& sw.len() >= line.len()
            &&& sw.skip(sw.len() - line.len()) == line
            &&& digits_value(weight_css(weight)) == n
        },
{
    law_weight_css(weight);
    reveal_strlit("\tfont-style: ");
    reveal_strlit(";\n");
    reveal_strlit("italic");
    reveal_strlit("oblique");
    reveal_strlit("normal");
    reveal_strlit("bold");
    reveal_strlit("\tfont-weight: ");
    reveal_strlit("\tfont-style: italic;\n");
    reveal_strlit("\tfont-style: oblique;\n");
    reveal_strlit("\tfont-weight: bold;\n");
    let sw = style_weight_css(style, weight);
    let wl = if weight != FontWeight::Regular { "\tfont-weight: "@ + weight_css(weight) + ";\n"@ } else { Seq::<char>::empty() };
    if style == FontStyle::Italic {
        assert(sw.take(21) =~= "\tfont-style: italic;\n"@);
    }
    if style == FontStyle::Oblique {
        assert(sw.take(22) =~= "\tfont-style: oblique;\n"@);
    }
    if style == FontStyle::Regular {
        assert(sw =~= wl);
        if weight != FontWeight::Regular {
            assert(sw.take(14) =~= "\tfont-weight: "@);
        }
    }
    if weight == FontWeight::Bold {
        assert(sw.skip(sw.len() - 20) =~= "\tfont-weight: bold;\n"@);
    }
    if weight == FontWeight::Regular {
        if style == FontStyle::Italic {
            assert(sw =~= "\tfont-style: italic;\n"@);
        }
        if style == FontStyle::Oblique {
            assert(sw =~= "\tfont-style: oblique;\n"@);
        }
    }
    if weight is Numeric {
        assert(sw.skip(sw.len() - wl.len()) =~= wl);
    }
}

/// Appending to a sequence keeps its first `n` elements.
proof fn lemma_take_prefix(a: Seq<char>, b: Seq<char>, n: int)
    requires
        0 <= n <= a.len(),
    ensures
        (a + b).take(n) == a.take(n),
{
    assert((a + b).take(n) =~= a.take(n));
}

/// Every `@font-face` rule of an italic font's stylesheet has the line `font-style: italic`, and
/// of an oblique font's the line `font-style: oblique`: the last rule of a non-empty stylesheet
/// holds it (as does each rule, all rules sharing the font's style).
pub proof fn law_rules_state_style(
    family: Seq<char>,
    style: FontStyle,
    weight: FontWeight,
    store_uri: Seq<char>,
    entries: Seq<SubsetInfo>,
)
    requires
        entries.len() > 0,
    ensures
        style == FontStyle::Italic ==> contains_sub(stylesheet_css(family, style, weight, store_uri, entries),
            "\tfont-style: italic;\n"@),
        style == FontStyle::Oblique ==> contains_sub(stylesheet_css(family, style, weight, store_uri, entries),
            "\tfont-style: oblique;\n"@),
{
    law_style_weight_lines(style, weight);
    reveal_strlit("\tfont-style: italic;\n");
    reveal_strlit("\tfont-style: oblique;\n");
    let prev = stylesheet_css(family, style, weight, store_uri, entries.drop_last());
    let rule = font_face_css(family, style, weight, store_uri, entries.last());
    let p = "@font-face {\n"@ + "\tfont-family: "@ + debug_quoted(family) + ";\n"@;
    let sw = style_weight_css(style, weight);
    let q = p + sw;
    let e = entries.last();
    let x2 = q + "\tunicode-range: "@;
    let x3 = x2 + ranges_css(e.ranges());
    let x4 = x3 + ";\n"@;
    let x5 = x4 + "\tsrc: url("@;
    let x6 = x5 + debug_quoted(store_uri + e.file_name_view());
    let x7 = x6 + ") format(\"woff2\");\n"@;
    let x8 = x7 + "}\n"@;
    reveal(font_face_css);
    assert(rule == x8);
    let n = q.len() as int;
    lemma_take_prefix(q, "\tunicode-range: "@, n);
    assert(q.take(n) =~= q);
    lemma_take_prefix(x2, ranges_css(e.ranges()), n);
    lemma_take_prefix(x3, ";\n"@, n);
    lemma_take_prefix(x4, "\tsrc: url("@, n);
    lemma_take_prefix(x5, debug_quoted(store_uri + e.file_name_view()), n);
    lemma_take_prefix(x6, ") format(\"woff2\");\n"@, n);
    lemma_take_prefix(x7, "}\n"@, n);
    assert(rule.take(n) == q);
    let whole = stylesheet_css(family, style, weight, store_uri, entries);
    assert(whole == prev + rule);
    assert(whole.take((prev.len() + q.len()) as int) =~= prev + q);
    let at: int = (prev.len() + p.len()) as int;
    if style == FontStyle::Italic {
        assert(whole.subrange(at, at + 21) =~= (prev + q).subrange(at, at + 21));
        assert(whole.subrange(at, at + 21) =~= sw.take(21));
        assert(whole.subrange(at, at + "\tfont-style: italic;\n"@.len()) == "\tfont-style: italic;\n"@);
    }
    if style == FontStyle::Oblique {
        assert(whole.subrange(at, at + 22) =~= (prev + q).subrange(at, at + 22));
        assert(whole.subrange(at, at + 22) =~= sw.take(22));
        assert(whole.subrange(at, at + "\tfont-style: oblique;\n"@.len()) == "\tfont-style: oblique;\n"@);
    }
}

fn push_style_weight(
    out: &mut Vec<char>,
    style: FontStyle,
    weight: FontWeight,
    style_value: &String,
    weight_value: &String,
)
    requires
        style_value@ == style_css(style),
        weight_value@ == weight_css(weight),
    ensures
        final(out)@ == old(out)@ + style_weight_css(style, weight),
{
    if style != FontStyle::Regular {
        push_str(out, "\tfont-style: ");
        push_str(out, style_value.as_str());
        push_str(out, ";\n");
    }
    let ghost mid = out@;
    if weight != FontWeight::Regular {
        push_str(out, "\tfont-weight: ");
        push_str(out, weight_value.as_str());
        push_str(out, ";\n");
    }
    assert(out@ =~= old(out)@ + style_weight_css(style, weight));
}

#[verifier::rlimit(40)]
fn push_font_face(
    out: &mut Vec<char>,
    family: Ghost<Seq<char>>,
    family_debug: &String,
    style: FontStyle,
    weight: FontWeight,
    style_value: &String,
    weight_value: &String,
    store_uri: &str,
    entry: &SubsetInfo,
)
    requires
        style_value@ == style_css(style),
        weight_value@ == weight_css(weight),
        family_debug@ == debug_quoted(family@),
    ensures
        final(out)@ == old(out)@ + font_face_css(family@, style, weight, store_uri@, *entry),
{
    reveal(font_face_css);
    let ghost o = out@;
    push_str(out, "@font-face {\n");
    push_str(out, "\tfont-family: ");
    push_str(out, family_debug.as_str());
    push_str(out, ";\n");
    let ghost a = out@;
    assert(a =~= o + "@font-face {\n"@ + "\tfont-family: "@ + family_debug@ + ";\n"@);
    push_style_weight(out, style, weight, style_value, weight_value);
    let ghost b = out@;
    push_str(out, "\tunicode-range: ");
    push_ranges_css(out, &entry.subset_ranges);
    push_str(out, ";\n");
    let ghost c = out@;
    assert(c =~= b + "\tunicode-range: "@ + ranges_css(entry.ranges()) + ";\n"@);
    let mut uri: Vec<char> = chars_of(store_uri);
    push_str(&mut uri, entry.file_name.as_str());
    let uri_string = string_from_chars(&uri);
    let uri_debug = debug_str(uri_string.as_str());
    push_str(out, "\tsrc: url(");
    push_str(out, uri_debug.as_str());
    push_str(out, ") format(\"woff2\");\n");
    push_str(out, "}\n");
    let ghost d = out@;
    assert(d =~= c + "\tsrc: url("@ + debug_quoted(store_uri@ + entry.file_name_view()) + ") format(\"woff2\");\n"@
        + "}\n"@);
    assert(d =~= o + font_face_css(family@, style, weight, store_uri@, *entry));
}

/// Contains the data needed to use a font as a webfont.
pub struct WebfontInfo {
    font_family: String,
    font_style_text: String,
    font_style: FontStyle,
    font_weight: FontWeight,
    entries: Vec<SubsetInfo>,
}

impl WebfontInfo {
    pub closed spec fn family_view(&self) -> Seq<char> { self.font_family@ }
    pub closed spec fn style_text_view(&self) -> Seq<char> { self.font_style_text@ }
    pub closed spec fn style(&self) -> FontStyle { self.font_style }
    pub closed spec fn weight(&self) -> FontWeight { self.font_weight }
    pub closed spec fn entries_view(&self) -> Seq<SubsetInfo> { self.entries@ }

    /// The font family name.
    pub fn font_family(&self) -> (s: &str)
        ensures s@ == self.family_view(),
    {
        self.font_family.as_str()
    }

    /// The font's style name.
    pub fn font_style(&self) -> (s: &str)
        ensures s@ == self.style_text_view(),
    {
        self.font_style_text.as_str()
    }

    /// Returns the number of subsets in the webfont.
    pub fn subset_count(&self) -> (n: usize)
        ensures n == self.entries_view().len(),
    {
        self.entries.len()
    }

    /// Returns the subsets in this webfont.
    pub fn subsets(&self) -> (s: &[SubsetInfo])
        ensures s@ == self.entries_view(),
    {
        self.entries.as_slice()
    }

    /// Returns a stylesheet appropriate for using this webfont, with the files served under
    /// `store_uri`.
    pub fn render_css(&self, store_uri: &str) -> (css: String)
        ensures
            css@ == stylesheet_css(self.family_view(), self.style(), self.weight(), store_uri@, self.entries_view()),
    {
        let family_debug = debug_str(self.font_family.as_str());
        let style_value = self.font_style.css_value();
        let weight_value = self.font_weight.css_value();
        let mut out: Vec<char> = Vec::new();
        let mut i: usize = 0;
        while i < self.entries.len()
            invariant
                i <= self.entries@.len(),
                family_debug@ == debug_quoted(self.font_family@),
                style_value@ == style_css(self.font_style),
                weight_value@ == weight_css(self.font_weight),
                out@ == stylesheet_css(self.font_family@, self.font_style, self.font_weight, store_uri@,
                    self.entries@.take(i as int)),
            decreases self.entries@.len() - i,
        {
            let entry = &self.entries[i];
            let ghost before = out@;
            push_font_face(&mut out, Ghost(self.font_family@), &family_debug, self.font_style, self.font_weight, &style_value,
                &weight_value, store_uri, entry);
            proof {
                let t = self.entries@.take(i + 1);
                assert(t.drop_last() == self.entries@.take(i as int));
                assert(t.last() == self.entries@[i as int]);
            }
            i = i + 1;
        }
        assert(self.entries@.take(self.entries@.len() as int) == self.entries@);
        string_from_chars(&out)
    }
}

/// `a` comes strictly before `b` in code point order (which is also the byte order of UTF-8).
pub open spec fn lex_lt(a: Seq<char>, b: Seq<char>) -> bool
    decreases a.len(),
{
    if a.len() == 0 {
        b.len() > 0
    } else if b.len() == 0 {
        false
    } else if a[0] != b[0] {
        (a[0] as int) < (b[0] as int)
    } else {
        lex_lt(a.drop_first(), b.drop_first())
    }
}

pub(crate) fn lex_less(a: &Vec<char>, b: &Vec<char>) -> (r: bool)
    ensures
        r == lex_lt(a@, b@),
{
    let mut i: usize = 0;
    assert(a@.skip(0) == a@);
    assert(b@.skip(0) == b@);
    while i < a.len() && i < b.len() && a[i] == b[i]
        invariant
            i <= a@.len(),
            i <= b@.len(),
            lex_lt(a@, b@) == lex_lt(a@.skip(i as int), b@.skip(i as int)),
        decreases a@.len() - i,
    {
        assert(a@.skip(i as int).drop_first() == a@.skip(i + 1));
        assert(b@.skip(i as int).drop_first() == b@.skip(i + 1));
        i = i + 1;
    }
    if i == a.len() {
        i < b.len()
    } else if i == b.len() {
        false
    } else {
        char_code(a[i]) < char_code(b[i])
    }
}

/// The entries are in increasing order of file name.
pub open spec fn sorted_by_file_name(entries: Seq<SubsetInfo>) -> bool {
    forall|i: int, j: int| 0 <= i < j < entries.len()
        ==> !lex_lt(#[trigger] entries[j].file_name_view(), #[trigger] entries[i].file_name_view())
}

pub(crate) proof fn lemma_lex_total(a: Seq<char>, b: Seq<char>)
    ensures
        !lex_lt(a, b) ==> (lex_lt(b, a) || a == b),
    decreases a.len(),
{
    if a.len() > 0 && b.len() > 0 && a[0] == b[0] {
        lemma_lex_total(a.drop_first(), b.drop_first());
        if a.drop_first() == b.drop_first() {
            assert(a =~= seq![a[0]] + a.drop_first());
            assert(b =~= seq![b[0]] + b.drop_first());
        }
    } else if a.len() == 0 && b.len() == 0 {
        assert(a =~= b);
    }
}

pub(crate) proof fn lemma_lex_asym(a: Seq<char>, b: Seq<char>)
    ensures
        lex_lt(a, b) ==> !lex_lt(b, a),
    decreases a.len(),
{
    if a.len() > 0 && b.len() > 0 && a[0] == b[0] {
        lemma_lex_asym(a.drop_first(), b.drop_first());
    }
}

pub(crate) proof fn lemma_lex_trans(a: Seq<char>, b: Seq<char>, c: Seq<char>)
    ensures
        lex_lt(a, b) && lex_lt(b, c) ==> lex_lt(a, c),
        !lex_lt(b, a) && !lex_lt(c, b) ==> !lex_lt(c, a),
    decreases a.len(),
{
    if a.len() > 0 && b.len() > 0 && c.len() > 0 {
        lemma_lex_trans(a.drop_first(), b.drop_first(), c.drop_first());
        lemma_lex_total(a, b);
        lemma_lex_total(b, c);
        lemma_lex_total(a.drop_first(), b.drop_first());
        lemma_lex_total(b.drop_first(), c.drop_first());
    }
}

impl WebfontInfo {
    /// Gathers the subsets of a font into a webfont, ordering them by file name.
    pub fn new(
        font_family: String,
        font_style_text: String,
        font_style: FontStyle,
        font_weight: FontWeight,
        entries: Vec<SubsetInfo>,
    ) -> (w: Self)
        ensures
            w.family_view() == font_family@,
            w.style_text_view() == font_style_text@,
            w.style() == font_style,
            w.weight() == font_weight,
            w.entries_view().to_multiset() == entries@.to_multiset(),
            sorted_by_file_name(w.entries_view()),
    {
        let mut sorted: Vec<SubsetInfo> = Vec::new();
        let ghost all = entries@;
        assert(sorted@ =~= all.take(0));
        for entry in it: entries.into_iter()
            invariant
                it.seq() == all,
                sorted@.to_multiset() == all.take(it.index()).to_multiset(),
                sorted_by_file_name(sorted@),
        {
            let key = chars_of(entry.file_name.as_str());
            let mut pos: usize = 0;
            while pos < sorted.len()
                invariant
                    pos <= sorted@.len(),
                    key@ == entry.file_name@,
                    sorted_by_file_name(sorted@),
                    forall|k: int| 0 <= k < pos ==> !lex_lt(key@, #[trigger] sorted@[k].file_name_view()),
                ensures
                    pos <= sorted@.len(),
                    forall|k: int| 0 <= k < pos ==> !lex_lt(key@, #[trigger] sorted@[k].file_name_view()),
                    pos == sorted@.len() || lex_lt(key@, sorted@[pos as int].file_name_view()),
                decreases sorted@.len() - pos,
            {
                let other = chars_of(sorted[pos].file_name.as_str());
                if lex_less(&key, &other) {
                    break;
                }
                pos = pos + 1;
            }
            let ghost before = sorted@;
            proof {
                assert forall|k: int| pos <= k < before.len() implies lex_lt(key@, #[trigger] before[k].file_name_view()) by {
                    if pos < before.len() {
                        lemma_lex_total(before[pos as int].file_name_view(), before[k].file_name_view());
                        lemma_lex_trans(key@, before[pos as int].file_name_view(), before[k].file_name_view());
                    }
                }
            }
            sorted.insert(pos, entry);
            proof {
                assert(all.take(it.index() + 1) == all.take(it.index()).push(entry));
                assert(sorted@ == before.insert(pos as int, entry));
                vstd::seq_lib::to_multiset_insert(before, pos as int, entry);
                vstd::seq_lib::to_multiset_build(all.take(it.index()), entry);
                assert forall|i: int, j: int| 0 <= i < j < sorted@.len()
                    implies !lex_lt(#[trigger] sorted@[j].file_name_view(), #[trigger] sorted@[i].file_name_view()) by {
                    if j < pos {
                        assert(sorted@[i] == before[i]);
                        assert(sorted@[j] == before[j]);
                    } else if j == pos {
                        assert(sorted@[i] == before[i]);
                        assert(sorted@[j] == entry);
                    } else if i < pos {
                        assert(sorted@[j] == before[j - 1]);
                        assert(sorted@[i] == before[i]);
                    } else if i == pos {
                        assert(sorted@[j] == before[j - 1]);
                        assert(sorted@[i] == entry);
                        assert(lex_lt(key@, before[j - 1].file_name_view()));
                        lemma_lex_asym(key@, before[j - 1].file_name_view());
                    } else {
                        assert(sorted@[j] == before[j - 1]);
                        assert(sorted@[i] == before[i - 1]);
                    }
                }
            }
        }
        assert(all.take(all.len() as int) == all);
        WebfontInfo { font_family, font_style_text, font_style, font_weight, entries: sorted }
    }
}

} // verus!
