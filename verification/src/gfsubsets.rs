//! Reading the character classes that Google Fonts splits its fonts into, from the CSS that it
//! serves, and sorting them into plain subsets and groups of subsets.
use vstd::prelude::*;
use crate::category::{categories, category_at};
use roaring::RoaringBitmap;
use crate::roaring_bitmap::{roaring_contents, roaring_new, roaring_insert, roaring_extend, roaring_values};
use crate::css_text::{trim, starts_with, ends_with, before, after_first, split_char, has_char,
    trim_chars, chars_start_with, chars_end_with, before_chars, after_first_chars, split_chars,
    slice_chars};
use crate::text::{chars_of, string_from_chars, push_str, push_chars, decimal, push_decimal};
use crate::render::{debug_quoted, debug_str};
use crate::render::{lex_lt, lex_less, lemma_lex_total, lemma_lex_asym, lemma_lex_trans};
use crate::ranges::{decode_range, decodable_set, separated_ranges, covers};
use core::ops::RangeInclusive;

verus! {

/// The value of a hexadecimal digit; -1 for any other character.
pub open spec fn hex_digit_value(c: char) -> int {
    if '0' <= c && c <= '9' {
        c as int - '0' as int
    } else if 'a' <= c && c <= 'f' {
        c as int - 'a' as int + 10
    } else if 'A' <= c && c <= 'F' {
        c as int - 'A' as int + 10
    } else {
        -1
    }
}

/// The value of a run of hexadecimal digits.
pub open spec fn hex_number(d: Seq<char>) -> int
    decreases d.len(),
{
    if d.len() == 0 {
        0
    } else {
        hex_number(d.drop_last()) * 16 + hex_digit_value(d.last())
    }
}

/// A number's text without its leading `+`, if any.
pub open spec fn unsigned_part(s: Seq<char>) -> Seq<char> {
    if s.len() > 0 && s[0] == '+' { s.skip(1) } else { s }
}

/// What `u32::from_str_radix(s, 16)` accepts and gives: an optional `+` followed by one or more
/// hexadecimal digits whose value fits in a `u32`.
pub open spec fn parse_hex(s: Seq<char>) -> Option<u32> {
    let d = unsigned_part(s);
    if d.len() > 0 && (forall|i: int| 0 <= i < d.len() ==> hex_digit_value(#[trigger] d[i]) >= 0)
        && hex_number(d) <= u32::MAX {
        Some(hex_number(d) as u32)
    } else {
        None
    }
}

/// The value of a hexadecimal digit; -1 for any other character.
fn hex_digit(c: char) -> (r: i64)
    ensures
        r == hex_digit_value(c),
{
    if '0' <= c && c <= '9' {
        (c as u32 - '0' as u32) as i64
    } else if 'a' <= c && c <= 'f' {
        (c as u32 - 'a' as u32 + 10) as i64
    } else if 'A' <= c && c <= 'F' {
        (c as u32 - 'A' as u32 + 10) as i64
    } else {
        -1
    }
}

/// Reads a hexadecimal number as `u32::from_str_radix(s, 16)` does: an optional `+`, then one
/// or more hexadecimal digits whose value fits in a `u32`.
pub(crate) fn hex_u32(s: &str) -> (r: Option<u32>)
    ensures
        r == parse_hex(s@),
{
    let c = chars_of(s);
    let start: usize = if c.len() > 0 && c[0] == '+' { 1 } else { 0 };
    let ghost d = unsigned_part(c@);
    assert(d =~= c@.skip(start as int));
    if start >= c.len() {
        return None;
    }
    let mut v: u64 = 0;
    let mut too_big = false;
    let mut i: usize = start;
    assert(d.take(0) =~= Seq::<char>::empty());
    while i < c.len()
        invariant
            start <= i <= c@.len(),
            c@ == s@,
            d == c@.skip(start as int),
            d == unsigned_part(s@),
            forall|k: int| 0 <= k < i - start ==> hex_digit_value(#[trigger] d[k]) >= 0,
            !too_big ==> v == hex_number(d.take(i - start)) && v <= u32::MAX,
            too_big ==> hex_number(d.take(i - start)) > u32::MAX,
        decreases c@.len() - i,
    {
        let dv = hex_digit(c[i]);
        proof {
            assert(d[i - start] == c@[i as int]);
            assert(d.take(i - start + 1).drop_last() =~= d.take(i - start));
            assert(d.take(i - start + 1).last() == c@[i as int]);
        }
        if dv < 0 {
            proof {
                let k = i - start;
                assert(hex_digit_value(d[k]) < 0);
                assert(!(forall|q: int| 0 <= q < d.len() ==> hex_digit_value(#[trigger] d[q]) >= 0));
                assert(parse_hex(s@) is None);
            }
            return None;
        }
        if !too_big {
            let nv: u64 = v * 16 + dv as u64;
            if nv > 0xffff_ffffu64 {
                too_big = true;
            } else {
                v = nv;
            }
        }
        i = i + 1;
    }
    assert(d.take(d.len() as int) =~= d);
    if too_big {
        None
    } else {
        Some(v as u32)
    }
}

/// What reading one entry of a `unicode-range` list gives: `None` where the reader stops on a
/// broken assumption (an entry that does not start with `U+`, or a range with more than one
/// `-`), `Some(None)` where a number does not parse, else the code points that the entry names.
pub open spec fn entry_codepoints(entry: Seq<char>) -> Option<Option<Set<u32>>> {
    let e = trim(entry);
    if !starts_with(e, "U+"@) {
        None
    } else {
        let body = e.skip(2);
        if has_char(body, '-') {
            let parts = split_char(body, '-');
            if parts.len() != 2 {
                None
            } else {
                match (parse_hex(parts[0]), parse_hex(parts[1])) {
                    (Some(a), Some(b)) => Some(Some(Set::new(|x: u32| a <= x <= b))),
                    _ => Some(None),
                }
            }
        } else {
            match parse_hex(body) {
                Some(a) => Some(Some(Set::empty().insert(a))),
                None => Some(None),
            }
        }
    }
}

/// `acc` joined to the outcome `r` of the entries that follow it.
pub open spec fn join_outcome(acc: Set<u32>, r: Option<Option<Set<u32>>>) -> Option<Option<Set<u32>>> {
    match r {
        Some(Some(b)) => Some(Some(acc.union(b))),
        other => other,
    }
}

/// What reading a list of entries in order gives: the first entry that stops the reader or
/// fails decides, else the union of what they name.
pub open spec fn entries_codepoints(entries: Seq<Seq<char>>) -> Option<Option<Set<u32>>>
    decreases entries.len(),
{
    if entries.len() == 0 {
        Some(Some(Set::empty()))
    } else {
        match entry_codepoints(entries[0]) {
            Some(Some(a)) => join_outcome(a, entries_codepoints(entries.skip(1))),
            other => other,
        }
    }
}

/// The state of the reader: the name of the class whose ranges come next, and the classes read.
pub type CssState = (Option<Seq<char>>, Map<Seq<char>, Set<u32>>);

/// The name that a comment line gives the next class: the comment's text, or for a bracketed
/// number `[n]`, the class `n` of the group of `cjk_tag`.
pub open spec fn comment_name(line: Seq<char>, cjk_tag: Seq<char>) -> Seq<char> {
    let name = trim(before(trim(after_first(line, "/*"@)), "*/"@));
    if starts_with(name, "["@) && ends_with(name, "]"@) {
        "group-"@ + cjk_tag + "-s"@ + trim(before(trim(after_first(name, "["@)), "]"@))
    } else {
        name
    }
}

/// What reading one line does to the state: `None` where the reader stops on a broken
/// assumption (a range line with no class name before it, or a broken entry), `Some(None)` where
/// a number does not parse.
pub open spec fn css_line(state: CssState, raw: Seq<char>, cjk_tag: Seq<char>) -> Option<Option<CssState>> {
    let line = trim(raw);
    let cur = if starts_with(line, "/*"@) { Some(comment_name(line, cjk_tag)) } else { state.0 };
    if starts_with(line, "unicode-range: "@) {
        match cur {
            None => None,
            Some(subset) => {
                let list = trim(before(trim(after_first(line, ":"@)), ";"@));
                match entries_codepoints(split_char(list, ',')) {
                    Some(Some(chars)) => Some(Some((None, state.1.insert(subset, chars)))),
                    None => None,
                    Some(None) => Some(None),
                }
            },
        }
    } else {
        Some(Some((cur, state.1)))
    }
}

/// What reading the lines in order does to the state.
pub open spec fn css_lines(state: CssState, lines: Seq<Seq<char>>, cjk_tag: Seq<char>) -> Option<Option<CssState>>
    decreases lines.len(),
{
    if lines.len() == 0 {
        Some(Some(state))
    } else {
        match css_line(state, lines[0], cjk_tag) {
            Some(Some(next)) => css_lines(next, lines.skip(1), cjk_tag),
            other => other,
        }
    }
}

/// The classes that a stylesheet names: for each `unicode-range` line, the code points it lists,
/// under the name that the last comment before it gave. A later line for the same name replaces
/// an earlier one.
pub open spec fn css_classes(css: Seq<char>, cjk_tag: Seq<char>) -> Option<Option<Map<Seq<char>, Set<u32>>>> {
    match css_lines((None, Map::empty()), split_char(css, '\n'), cjk_tag) {
        Some(Some(state)) => Some(Some(state.1)),
        None => None,
        Some(None) => Some(None),
    }
}

/// The names of named bitmaps, in order.
pub open spec fn names_of(entries: Seq<(String, RoaringBitmap)>) -> Seq<Seq<char>> {
    entries.map_values(|e: (String, RoaringBitmap)| e.0@)
}

/// No name occurs twice.
pub open spec fn unique_names(entries: Seq<(String, RoaringBitmap)>) -> bool {
    forall|i: int, j: int| 0 <= i < j < entries.len() ==> (#[trigger] entries[i]).0@ != (#[trigger] entries[j]).0@
}

/// Named bitmaps as a map from name to code points.
pub open spec fn map_of(entries: Seq<(String, RoaringBitmap)>) -> Map<Seq<char>, Set<u32>> {
    Map::new(
        |k: Seq<char>| names_of(entries).contains(k),
        |k: Seq<char>| roaring_contents(entries[names_of(entries).index_of(k)].1),
    )
}

/// The map holds, under the name at position `i`, the code points there.
pub proof fn lemma_map_of_at(entries: Seq<(String, RoaringBitmap)>, i: int)
    requires
        unique_names(entries),
        0 <= i < entries.len(),
    ensures
        map_of(entries).contains_key(entries[i].0@),
        map_of(entries)[entries[i].0@] == roaring_contents(entries[i].1),
{
    let k = entries[i].0@;
    assert(names_of(entries)[i] == k);
    let j = names_of(entries).index_of(k);
    assert(names_of(entries)[j] == k);
    if i < j {
        assert(entries[i].0@ != entries[j].0@);
    } else if j < i {
        assert(entries[j].0@ != entries[i].0@);
    }
}

/// Named sets of code points, each name once.
pub struct CodepointTable {
    entries: Vec<(String, RoaringBitmap)>,
}

impl CodepointTable {
    /// Each name occurs once.
    #[verifier::type_invariant]
    closed spec fn wf(&self) -> bool {
        unique_names(self.entries@)
    }

    /// The names, in the order the table keeps them.
    pub closed spec fn names(&self) -> Seq<Seq<char>> {
        names_of(self.entries@)
    }

    /// The code points under each name.
    pub closed spec fn view_map(&self) -> Map<Seq<char>, Set<u32>> {
        map_of(self.entries@)
    }

    /// An empty table.
    pub fn new() -> (t: Self)
        ensures
            t.view_map() == Map::<Seq<char>, Set<u32>>::empty(),
            t.names() == Seq::<Seq<char>>::empty(),
    {
        let t = CodepointTable { entries: Vec::new() };
        assert(t.view_map() =~= Map::<Seq<char>, Set<u32>>::empty());
        assert(t.names() =~= Seq::<Seq<char>>::empty());
        t
    }

    /// Whether the code points under every name can be turned into character ranges (see
    /// `decodable_set`).
    pub fn all_decodable(&self) -> (r: bool)
        ensures
            r == forall|k: Seq<char>| self.view_map().contains_key(k) ==> decodable_set(#[trigger] self.view_map()[k]),
    {
        proof { use_type_invariant(self); }
        let mut i: usize = 0;
        while i < self.entries.len()
            invariant
                i <= self.entries@.len(),
                unique_names(self.entries@),
                forall|q: int| 0 <= q < i ==> decodable_set(roaring_contents(#[trigger] self.entries@[q].1)),
            decreases self.entries@.len() - i,
        {
            let vals = roaring_values(&self.entries[i].1);
            let ghost set = roaring_contents(self.entries@[i as int].1);
            let mut j: usize = 0;
            let mut has_last_bmp = false;
            while j < vals.len()
                invariant
                    i < self.entries@.len(),
                    unique_names(self.entries@),
                    set == roaring_contents(self.entries@[i as int].1),
                    j <= vals@.len(),
                    vals@.to_set() == set,
                    crate::sort::strictly_increasing(vals@),
                    forall|q: int| 0 <= q < j ==> crate::text::is_scalar(#[trigger] vals@[q] as int),
                    has_last_bmp == vals@.take(j as int).contains(0xD7FFu32),
                decreases vals@.len() - j,
            {
                let v = vals[j];
                if !(v < 0xD800 || (0xE000 <= v && v <= 0x10FFFF)) {
                    proof {
                        assert(vals@.to_set().contains(v)) by {
                            assert(vals@[j as int] == v);
                        }
                        assert(set.contains(v));
                        assert(!crate::text::is_scalar(v as int));
                        lemma_map_of_at(self.entries@, i as int);
                        let k = self.entries@[i as int].0@;
                        assert(self.view_map()[k] == set);
                        assert(!decodable_set(self.view_map()[k]));
                    }
                    return false;
                }
                proof {
                    crate::sort::lemma_push_contains(vals@.take(j as int), v, 0xD7FFu32);
                    assert(vals@.take(j + 1) =~= vals@.take(j as int).push(v));
                }
                if v == 0xD7FF {
                    has_last_bmp = true;
                }
                j = j + 1;
            }
            proof {
                assert(vals@.take(j as int) =~= vals@);
            }
            if has_last_bmp && vals[vals.len() - 1] > 0xD7FF {
                proof {
                    assert(set.contains(0xD7FFu32));
                    assert(set.contains(vals@[vals@.len() - 1]));
                    lemma_map_of_at(self.entries@, i as int);
                    let k = self.entries@[i as int].0@;
                    assert(!decodable_set(self.view_map()[k]));
                }
                return false;
            }
            proof {
                assert forall|x: u32| set.contains(x) implies crate::text::is_scalar(x as int) by {
                    let q = choose|q: int| 0 <= q < vals@.len() && vals@[q] == x;
                    assert(crate::text::is_scalar(vals@[q] as int));
                }
                if set.contains(0xD7FFu32) {
                    assert(vals@.contains(0xD7FFu32));
                    assert forall|x: u32| set.contains(x) implies x <= 0xD7FF by {
                        let q = choose|q: int| 0 <= q < vals@.len() && vals@[q] == x;
                        if q < vals@.len() - 1 {
                            assert(vals@[q] < vals@[vals@.len() - 1]);
                        }
                    }
                }
            }
            i = i + 1;
        }
        proof {
            assert forall|k: Seq<char>| self.view_map().contains_key(k) implies decodable_set(#[trigger] self.view_map()[k]) by {
                let q = names_of(self.entries@).index_of(k);
                assert(names_of(self.entries@)[q] == k);
                lemma_map_of_at(self.entries@, q);
            }
        }
        true
    }

    /// The entries: each name with its code points.
    pub fn into_entries(self) -> (e: Vec<(String, RoaringBitmap)>)
        ensures
            unique_names(e@),
            names_of(e@) == self.names(),
            map_of(e@) == self.view_map(),
    {
        proof { use_type_invariant(&self); }
        self.entries
    }

    /// Puts `bits` under `name`; with `merge`, joins them to what the name held before, else
    /// replaces it.
    pub fn put(&mut self, name: String, bits: RoaringBitmap, merge: bool)
        ensures
            final(self).view_map() == old(self).view_map().insert(name@,
                if merge && old(self).view_map().contains_key(name@) {
                    old(self).view_map()[name@].union(roaring_contents(bits))
                } else {
                    roaring_contents(bits)
                }),
            old(self).names().contains(name@) ==> final(self).names() == old(self).names(),
            !old(self).names().contains(name@) ==> final(self).names() == old(self).names().push(name@),
    {
        proof { use_type_invariant(&*self); }
        let ghost before = self.view_map();
        let ghost old_entries = self.entries@;
        let mut entries: Vec<(String, RoaringBitmap)> = Vec::new();
        std::mem::swap(&mut entries, &mut self.entries);
        let ghost key = name@;
        let ghost value = if merge && before.contains_key(key) { before[key].union(roaring_contents(bits)) } else { roaring_contents(bits) };
        let mut pos: usize = 0;
        while pos < entries.len()
            invariant
                pos <= entries@.len(),
                entries@ == old_entries,
                name@ == key,
                forall|k: int| 0 <= k < pos ==> (#[trigger] entries@[k]).0@ != key,
            ensures
                pos <= entries@.len(),
                entries@ == old_entries,
                forall|k: int| 0 <= k < pos ==> (#[trigger] entries@[k]).0@ != key,
                pos < entries@.len() ==> entries@[pos as int].0@ == key,
            decreases entries@.len() - pos,
        {
            if entries[pos].0 == name {
                break;
            }
            pos = pos + 1;
        }
        let found = pos < entries.len();
        proof {
            if !found && names_of(old_entries).contains(key) {
                let q = choose|q: int| 0 <= q < names_of(old_entries).len() && names_of(old_entries)[q] == key;
                assert(old_entries[q].0@ == key);
            }
        }
        if found {
            proof {
                lemma_map_of_at(old_entries, pos as int);
            }
            let mut b = bits;
            if merge {
                roaring_extend(&mut b, &entries[pos].1);
            }
            entries.set(pos, (name, b));
            proof {
                assert(names_of(entries@) =~= names_of(old_entries));
                assert(roaring_contents(b) =~= value);
            }
        } else {
            entries.push((name, bits));
        }
        proof {
            assert(unique_names(entries@));
        }
        self.entries = entries;
        proof {
            let now = self.entries@;
            assert forall|k: Seq<char>| #[trigger] map_of(now).contains_key(k)
                == before.insert(key, value).contains_key(k) by {
                if names_of(now).contains(k) {
                    let q = choose|q: int| 0 <= q < names_of(now).len() && names_of(now)[q] == k;
                    if q < old_entries.len() && now[q].0@ == old_entries[q].0@ {
                        assert(names_of(old_entries)[q] == k);
                    }
                }
                if names_of(old_entries).contains(k) {
                    let q = choose|q: int| 0 <= q < names_of(old_entries).len() && names_of(old_entries)[q] == k;
                    assert(now[q].0@ == old_entries[q].0@);
                    assert(names_of(now)[q] == k);
                }
                if k == key {
                    assert(names_of(now)[pos as int] == k);
                }
            }
            assert forall|k: Seq<char>| #[trigger] map_of(now).contains_key(k)
                implies map_of(now)[k] == before.insert(key, value)[k] by {
                let j = names_of(now).index_of(k);
                assert(names_of(now)[j] == k);
                lemma_map_of_at(now, j);
                if k != key {
                    assert(j < old_entries.len());
                    assert(now[j] == old_entries[j]);
                    lemma_map_of_at(old_entries, j);
                }
            }
            assert(map_of(now) =~= before.insert(key, value));
            if names_of(old_entries).contains(key) {
                assert(names_of(now) =~= names_of(old_entries));
            } else {
                assert(names_of(now) =~= names_of(old_entries).push(key));
            }
        }
    }
}

/// A number of a `unicode-range` entry is not hexadecimal, or does not fit in a `u32`.
pub struct BadHexNumber;

/// Whether `s` holds the character `c`.
pub(crate) fn contains_char(s: &Vec<char>, c: char) -> (b: bool)
    ensures
        b == has_char(s@, c),
{
    let mut i: usize = 0;
    while i < s.len()
        invariant
            i <= s@.len(),
            forall|k: int| 0 <= k < i ==> s@[k] != c,
        decreases s@.len() - i,
    {
        if s[i] == c {
            return true;
        }
        i = i + 1;
    }
    false
}

/// Parses a hexadecimal number.
pub(crate) fn parse_hex_chars(s: &Vec<char>) -> (r: Option<u32>)
    ensures
        r == parse_hex(s@),
{
    let text = string_from_chars(s);
    hex_u32(text.as_str())
}

/// Inserts the code points `a` to `b` into `chars`.
fn insert_range(chars: &mut RoaringBitmap, a: u32, b: u32)
    ensures
        roaring_contents(*final(chars)) == roaring_contents(*old(chars)).union(Set::new(|x: u32| a <= x <= b)),
{
    let ghost start = roaring_contents(*chars);
    if a > b {
        assert(roaring_contents(*chars) =~= start.union(Set::new(|x: u32| a <= x <= b)));
        return;
    }
    let mut ch: u32 = a;
    loop
        invariant
            a <= ch <= b,
            start == roaring_contents(*old(chars)),
            roaring_contents(*chars) == start.union(Set::new(|x: u32| a <= x < ch)),
        decreases b - ch,
    {
        roaring_insert(chars, ch);
        if ch == b {
            assert(roaring_contents(*chars) =~= start.union(Set::new(|x: u32| a <= x <= b)));
            return;
        }
        ch = ch + 1;
        assert(roaring_contents(*chars) =~= start.union(Set::new(|x: u32| a <= x < ch)));
    }
}

/// Reads one entry of a `unicode-range` list into `chars`; `false` where a number does not
/// parse.
fn read_entry(entry: &Vec<char>, chars: &mut RoaringBitmap) -> (ok: bool)
    requires
        entry_codepoints(entry@) is Some,
    ensures
        match entry_codepoints(entry@) {
            Some(Some(a)) => ok && roaring_contents(*final(chars)) == roaring_contents(*old(chars)).union(a),
            _ => !ok,
        },
{
    let e = trim_chars(entry);
    proof { reveal_strlit("U+"); }
    let body = slice_chars(&e, 2, e.len());
    assert(body@ =~= e@.skip(2));
    if contains_char(&body, '-') {
        let parts = split_chars(&body, '-');
        assert(parts@.len() == 2);
        assert(parts@[0]@ == split_char(body@, '-')[0]);
        assert(parts@[1]@ == split_char(body@, '-')[1]);
        let start = parse_hex_chars(&parts[0]);
        match start {
            None => false,
            Some(a) => {
                let end = parse_hex_chars(&parts[1]);
                match end {
                    None => false,
                    Some(b) => {
                        insert_range(chars, a, b);
                        true
                    },
                }
            },
        }
    } else {
        match parse_hex_chars(&body) {
            None => false,
            Some(a) => {
                roaring_insert(chars, a);
                assert(roaring_contents(*chars) =~= roaring_contents(*old(chars)).union(Set::empty().insert(a)));
                true
            },
        }
    }
}

/// Reads a comma-separated `unicode-range` list; `None` where a number does not parse.
fn read_range_list(list: &Vec<char>) -> (r: Option<RoaringBitmap>)
    requires
        entries_codepoints(split_char(list@, ',')) is Some,
    ensures
        match entries_codepoints(split_char(list@, ',')) {
            Some(Some(a)) => r matches Some(b) && roaring_contents(b) == a,
            _ => r is None,
        },
{
    let entries = split_chars(list, ',');
    let ghost ev = entries@.map_values(|v: Vec<char>| v@);
    let mut chars = roaring_new();
    let mut k: usize = 0;
    proof {
        assert(ev.skip(0) =~= ev);
        assert(roaring_contents(chars).union(Set::<u32>::empty()) =~= Set::<u32>::empty());
        assert(join_outcome(roaring_contents(chars), entries_codepoints(ev)) == entries_codepoints(ev)) by {
            match entries_codepoints(ev) {
                Some(Some(b)) => { assert(roaring_contents(chars).union(b) =~= b); },
                _ => {},
            }
        }
    }
    while k < entries.len()
        invariant
            k <= entries@.len(),
            ev == entries@.map_values(|v: Vec<char>| v@),
            ev == split_char(list@, ','),
            entries_codepoints(ev) is Some,
            entries_codepoints(ev) == join_outcome(roaring_contents(chars), entries_codepoints(ev.skip(k as int))),
        decreases entries@.len() - k,
    {
        let ghost rest = ev.skip(k as int);
        let ghost acc = roaring_contents(chars);
        assert(rest[0] == entries@[k as int]@);
        assert(rest.skip(1) =~= ev.skip(k + 1));
        let ok = read_entry(&entries[k], &mut chars);
        if !ok {
            return None;
        }
        proof {
            match entries_codepoints(ev.skip(k + 1)) {
                Some(Some(b)) => {
                    assert(acc.union(entry_codepoints(rest[0]).unwrap().unwrap()).union(b)
                        =~= acc.union(entry_codepoints(rest[0]).unwrap().unwrap().union(b)));
                },
                _ => {},
            }
        }
        k = k + 1;
    }
    proof {
        assert(ev.skip(k as int) =~= Seq::<Seq<char>>::empty());
        assert(roaring_contents(chars).union(Set::<u32>::empty()) =~= roaring_contents(chars));
    }
    Some(chars)
}

/// The name that a comment line gives the next class.
fn read_comment_name(line: &Vec<char>, cjk_tag: &str) -> (name: Vec<char>)
    ensures
        name@ == comment_name(line@, cjk_tag@),
{
    let inner = trim_chars(&after_first_chars(line, "/*"));
    let name = trim_chars(&before_chars(&inner, "*/"));
    if chars_start_with(&name, "[") && chars_end_with(&name, "]") {
        let number = trim_chars(&before_chars(&trim_chars(&after_first_chars(&name, "[")), "]"));
        let mut out: Vec<char> = Vec::new();
        push_str(&mut out, "group-");
        push_str(&mut out, cjk_tag);
        push_str(&mut out, "-s");
        push_chars(&mut out, &number);
        assert(out@ =~= "group-"@ + cjk_tag@ + "-s"@ + number@);
        out
    } else {
        name
    }
}

/// The view of the class name that the reader holds.
pub open spec fn name_view(o: Option<Vec<char>>) -> Option<Seq<char>> {
    match o {
        Some(v) => Some(v@),
        None => None,
    }
}

/// Reads one line; `false` where a number does not parse.
fn read_line(current: &mut Option<Vec<char>>, table: &mut CodepointTable, raw: &Vec<char>, cjk_tag: &str) -> (ok: bool)
    requires
        css_line((name_view(*old(current)), old(table).view_map()), raw@, cjk_tag@) is Some,
    ensures
        match css_line((name_view(*old(current)), old(table).view_map()), raw@, cjk_tag@) {
            Some(Some(next)) => ok && next == (name_view(*final(current)), final(table).view_map()),
            _ => !ok,
        },
{
    let line = trim_chars(raw);
    if chars_start_with(&line, "/*") {
        *current = Some(read_comment_name(&line, cjk_tag));
    }
    if chars_start_with(&line, "unicode-range: ") {
        let subset = match current.take() {
            Some(s) => s,
            None => {
                assert(false);
                Vec::new()
            },
        };
        let list = trim_chars(&before_chars(&trim_chars(&after_first_chars(&line, ":")), ";"));
        match read_range_list(&list) {
            None => false,
            Some(chars) => {
                table.put(string_from_chars(&subset), chars, false);
                true
            },
        }
    } else {
        true
    }
}

/// Reads the classes of a Google Fonts stylesheet: each `unicode-range` line gives the code
/// points of the class that the last comment before it names (a bracketed number `[n]` names
/// class `n` of the group of `cjk_tag`). Fails where a number does not parse.
pub fn parse_css_poorly(css: &str, cjk_tag: &str) -> (r: Result<CodepointTable, BadHexNumber>)
    requires
        css_classes(css@, cjk_tag@) is Some,
    ensures
        match r {
            Ok(t) => css_classes(css@, cjk_tag@) == Some(Some(t.view_map())),
            Err(_) => css_classes(css@, cjk_tag@) == Some(None::<Map<Seq<char>, Set<u32>>>),
        },
{
    let text = chars_of(css);
    let lines = split_chars(&text, '\n');
    let ghost lv = lines@.map_values(|v: Vec<char>| v@);
    let mut current: Option<Vec<char>> = None;
    let mut table = CodepointTable::new();
    let ghost init: CssState = (None, Map::empty());
    proof {
        assert(lv.skip(0) =~= lv);
        assert((name_view(current), table.view_map()) == init);
    }
    let mut k: usize = 0;
    while k < lines.len()
        invariant
            k <= lines@.len(),
            lv == lines@.map_values(|v: Vec<char>| v@),
            lv == split_char(css@, '\n'),
            init == (None::<Seq<char>>, Map::<Seq<char>, Set<u32>>::empty()),
            css_lines(init, lv, cjk_tag@) is Some,
            css_lines(init, lv, cjk_tag@) == css_lines((name_view(current), table.view_map()), lv.skip(k as int), cjk_tag@),
        decreases lines@.len() - k,
    {
        let ghost rest = lv.skip(k as int);
        let ghost st: CssState = (name_view(current), table.view_map());
        assert(rest[0] == lines@[k as int]@);
        assert(rest.skip(1) =~= lv.skip(k + 1));
        let ok = read_line(&mut current, &mut table, &lines[k], cjk_tag);
        if !ok {
            assert(css_line(st, rest[0], cjk_tag@) == Some(None::<CssState>));
            assert(css_lines(st, rest, cjk_tag@) == Some(None::<CssState>));
            assert(css_lines(init, lv, cjk_tag@) == Some(None::<CssState>));
            assert(css_classes(css@, cjk_tag@) == Some(None::<Map<Seq<char>, Set<u32>>>));
            return Err(BadHexNumber);
        }
        k = k + 1;
    }
    assert(lv.skip(k as int) =~= Seq::<Seq<char>>::empty());
    Ok(table)
}

/// Whether an entry of a range list can be read without the reader stopping.
fn entry_readable(entry: &Vec<char>) -> (r: bool)
    ensures
        r == (entry_codepoints(entry@) is Some),
{
    let e = trim_chars(entry);
    proof { reveal_strlit("U+"); }
    if !chars_start_with(&e, "U+") {
        return false;
    }
    let body = slice_chars(&e, 2, e.len());
    assert(body@ =~= e@.skip(2));
    if contains_char(&body, '-') {
        let parts = split_chars(&body, '-');
        parts.len() == 2
    } else {
        true
    }
}

/// Whether a range list can be read without the reader stopping; where it can, `fails` tells
/// whether a number in it does not parse.
fn range_list_readable(list: &Vec<char>) -> (r: (bool, bool))
    ensures
        r.0 == (entries_codepoints(split_char(list@, ',')) is Some),
        r.0 ==> (r.1 == (entries_codepoints(split_char(list@, ',')) == Some(None::<Set<u32>>))),
{
    let entries = split_chars(list, ',');
    let ghost ev = entries@.map_values(|v: Vec<char>| v@);
    let mut k: usize = 0;
    proof {
        assert(ev.skip(0) =~= ev);
    }
    while k < entries.len()
        invariant
            k <= entries@.len(),
            ev == entries@.map_values(|v: Vec<char>| v@),
            ev == split_char(list@, ','),
            (entries_codepoints(ev) is None) == (entries_codepoints(ev.skip(k as int)) is None),
            (entries_codepoints(ev) == Some(None::<Set<u32>>)) == (entries_codepoints(ev.skip(k as int)) == Some(None::<Set<u32>>)),
        decreases entries@.len() - k,
    {
        let ghost rest = ev.skip(k as int);
        assert(rest[0] == entries@[k as int]@);
        assert(rest.skip(1) =~= ev.skip(k + 1));
        if !entry_readable(&entries[k]) {
            return (false, false);
        }
        let mut scratch = roaring_new();
        if !read_entry(&entries[k], &mut scratch) {
            return (true, true);
        }
        k = k + 1;
    }
    proof {
        assert(ev.skip(k as int) =~= Seq::<Seq<char>>::empty());
    }
    (true, false)
}

/// Whether a stylesheet can be read without the reader stopping: every `unicode-range` line
/// comes after a comment that names its class, and every entry of it starts with `U+` and has
/// at most one `-`, up to the first number that does not parse.
pub fn readable_css(css: &str, cjk_tag: &str) -> (r: bool)
    ensures
        r == (css_classes(css@, cjk_tag@) is Some),
{
    let text = chars_of(css);
    let lines = split_chars(&text, '\n');
    let ghost lv = lines@.map_values(|v: Vec<char>| v@);
    let ghost init: CssState = (None, Map::empty());
    let ghost mut st: CssState = init;
    let mut has_current = false;
    proof {
        assert(lv.skip(0) =~= lv);
        reveal_strlit("/*");
        reveal_strlit("unicode-range: ");
        reveal_strlit(":");
        reveal_strlit(";");
    }
    let mut k: usize = 0;
    while k < lines.len()
        invariant
            k <= lines@.len(),
            lv == lines@.map_values(|v: Vec<char>| v@),
            lv == split_char(css@, '\n'),
            init == (None::<Seq<char>>, Map::<Seq<char>, Set<u32>>::empty()),
            has_current == (st.0 is Some),
            css_lines(init, lv, cjk_tag@) == css_lines(st, lv.skip(k as int), cjk_tag@),
        decreases lines@.len() - k,
    {
        let ghost rest = lv.skip(k as int);
        assert(rest[0] == lines@[k as int]@);
        assert(rest.skip(1) =~= lv.skip(k + 1));
        let line = trim_chars(&lines[k]);
        let comment = chars_start_with(&line, "/*");
        if chars_start_with(&line, "unicode-range: ") {
            if !comment && !has_current {
                return false;
            }
            let list = trim_chars(&before_chars(&trim_chars(&after_first_chars(&line, ":")), ";"));
            let (readable, fails) = range_list_readable(&list);
            if !readable {
                return false;
            }
            if fails {
                return true;
            }
            proof {
                st = css_line(st, rest[0], cjk_tag@).unwrap().unwrap();
            }
            has_current = false;
        } else {
            proof {
                st = css_line(st, rest[0], cjk_tag@).unwrap().unwrap();
            }
            if comment {
                has_current = true;
            }
        }
        k = k + 1;
    }
    proof {
        assert(lv.skip(k as int) =~= Seq::<Seq<char>>::empty());
    }
    true
}

/// The tag that the classes of a font get when its subsets name exactly one CJK script or
/// emoji; `"unk"` when they name none or several.
pub open spec fn cjk_tag_spec(subsets: Seq<Seq<char>>) -> Seq<char> {
    let zs = subsets.contains("chinese-simplified"@);
    let zt = subsets.contains("chinese-traditional"@);
    let zh = subsets.contains("chinese-hongkong"@);
    let kr = subsets.contains("korean"@);
    let jp = subsets.contains("japanese"@);
    let em = subsets.contains("emoji"@);
    let count = (if zs { 1int } else { 0 }) + (if zt { 1int } else { 0 }) + (if zh { 1int } else { 0 })
        + (if kr { 1int } else { 0 }) + (if jp { 1int } else { 0 }) + (if em { 1int } else { 0 });
    if count > 1 {
        "unk"@
    } else if zs {
        "zhsimp"@
    } else if zt {
        "zhtrad"@
    } else if zh {
        "zhhk"@
    } else if kr {
        "kr"@
    } else if jp {
        "jp"@
    } else if em {
        "emoji"@
    } else {
        "unk"@
    }
}

/// Whether `subsets` holds `name`.
fn names_contain(subsets: &[String], name: &str) -> (b: bool)
    ensures
        b == subsets@.map_values(|s: String| s@).contains(name@),
{
    let target = chars_of(name);
    let mut i: usize = 0;
    while i < subsets.len()
        invariant
            i <= subsets@.len(),
            target@ == name@,
            forall|k: int| 0 <= k < i ==> (#[trigger] subsets@[k])@ != name@,
        decreases subsets@.len() - i,
    {
        let candidate = chars_of(subsets[i].as_str());
        if crate::text::chars_eq(&candidate, &target) {
            assert(subsets@.map_values(|s: String| s@)[i as int] == name@);
            return true;
        }
        i = i + 1;
    }
    proof {
        let m = subsets@.map_values(|s: String| s@);
        if m.contains(name@) {
            let k = choose|k: int| 0 <= k < m.len() && m[k] == name@;
            assert(subsets@[k]@ == name@);
        }
    }
    false
}

/// The tag that the classes of a font with these subsets get.
pub fn cjk_tag(subsets: &[String]) -> (tag: &'static str)
    ensures
        tag@ == cjk_tag_spec(subsets@.map_values(|s: String| s@)),
{
    let zs = names_contain(subsets, "chinese-simplified");
    let zt = names_contain(subsets, "chinese-traditional");
    let zh = names_contain(subsets, "chinese-hongkong");
    let kr = names_contain(subsets, "korean");
    let jp = names_contain(subsets, "japanese");
    let em = names_contain(subsets, "emoji");
    let count: u8 = (if zs { 1u8 } else { 0 }) + (if zt { 1u8 } else { 0 }) + (if zh { 1u8 } else { 0 })
        + (if kr { 1u8 } else { 0 }) + (if jp { 1u8 } else { 0 }) + (if em { 1u8 } else { 0 });
    if count > 1 {
        "unk"
    } else if zs {
        "zhsimp"
    } else if zt {
        "zhtrad"
    } else if zh {
        "zhhk"
    } else if kr {
        "kr"
    } else if jp {
        "jp"
    } else if em {
        "emoji"
    } else {
        "unk"
    }
}

/// `m0` joined with the classes of `pm` whose names are in `names`.
pub open spec fn merged_with(m0: Map<Seq<char>, Set<u32>>, pm: Map<Seq<char>, Set<u32>>, names: Seq<Seq<char>>) -> Map<Seq<char>, Set<u32>> {
    Map::new(
        |k: Seq<char>| m0.contains_key(k) || names.contains(k),
        |k: Seq<char>| if m0.contains_key(k) && names.contains(k) {
            m0[k].union(pm[k])
        } else if m0.contains_key(k) {
            m0[k]
        } else {
            pm[k]
        })
}

/// Joins the classes read from one font into those read so far: a class read before takes the
/// union of both sets of code points.
pub fn merge_classes(all: &mut CodepointTable, parsed: CodepointTable)
    ensures
        final(all).view_map() == Map::new(
            |k: Seq<char>| old(all).view_map().contains_key(k) || parsed.view_map().contains_key(k),
            |k: Seq<char>| if old(all).view_map().contains_key(k) && parsed.view_map().contains_key(k) {
                old(all).view_map()[k].union(parsed.view_map()[k])
            } else if old(all).view_map().contains_key(k) {
                old(all).view_map()[k]
            } else {
                parsed.view_map()[k]
            }),
{
    let ghost m0 = all.view_map();
    let ghost pm = parsed.view_map();
    let entries = parsed.into_entries();
    let ghost ev = entries@;
    proof {
        assert(names_of(ev.take(0)) =~= Seq::<Seq<char>>::empty());
        assert(all.view_map() =~= merged_with(m0, pm, names_of(ev.take(0))));
    }
    let ghost n0 = ev.len();
    for e in it: entries.into_iter()
        invariant
            it.seq() == ev,
            unique_names(ev),
            map_of(ev) == pm,
            all.view_map() == merged_with(m0, pm, names_of(ev.take(it.index() as int))),
    {
        let ghost k = it.index();
        let ghost before = all.view_map();
        proof {
            lemma_map_of_at(ev, k as int);
            assert(names_of(ev.take(k + 1)) =~= names_of(ev.take(k as int)).push(e.0@));
            assert(!names_of(ev.take(k as int)).contains(e.0@)) by {
                if names_of(ev.take(k as int)).contains(e.0@) {
                    let q = choose|q: int| 0 <= q < names_of(ev.take(k as int)).len() && names_of(ev.take(k as int))[q] == e.0@;
                    assert(ev[q].0@ == ev[k as int].0@);
                }
            }
        }
        all.put(e.0, e.1, true);
        proof {
            let want = merged_with(m0, pm, names_of(ev.take(k + 1)));
            assert forall|x: Seq<char>| #[trigger] want.contains_key(x) == all.view_map().contains_key(x) by {
                crate::sort::lemma_push_contains(names_of(ev.take(k as int)), ev[k as int].0@, x);
            }
            assert(all.view_map().dom() =~= want.dom());
            assert forall|x: Seq<char>| #[trigger] all.view_map().contains_key(x) implies want[x] == all.view_map()[x] by {
                crate::sort::lemma_push_contains(names_of(ev.take(k as int)), ev[k as int].0@, x);
            }
            assert(all.view_map() =~= want);
        }
    }
    proof {
        assert(ev.take(ev.len() as int) =~= ev);
        assert(names_of(ev).to_set() == pm.dom());
        assert(all.view_map() =~= Map::new(
            |k: Seq<char>| m0.contains_key(k) || pm.contains_key(k),
            |k: Seq<char>| if m0.contains_key(k) && pm.contains_key(k) {
                m0[k].union(pm[k])
            } else if m0.contains_key(k) {
                m0[k]
            } else {
                pm[k]
            }));
    }
}

/// The names are in strictly increasing order.
pub open spec fn lex_increasing(s: Seq<Seq<char>>) -> bool {
    forall|i: int, j: int| 0 <= i < j < s.len() ==> lex_lt(#[trigger] s[i], #[trigger] s[j])
}

/// A name is never before itself.
proof fn lemma_lex_irreflexive(a: Seq<char>)
    ensures
        !lex_lt(a, a),
{
    lemma_lex_asym(a, a);
}

/// A finite set of names has only one strictly increasing enumeration.
pub proof fn lemma_lex_increasing_unique(a: Seq<Seq<char>>, b: Seq<Seq<char>>)
    requires
        lex_increasing(a),
        lex_increasing(b),
        a.to_set() == b.to_set(),
    ensures
        a == b,
    decreases a.len() + b.len(),
{
    if a.len() == 0 || b.len() == 0 {
        if a.len() > 0 {
            assert(a.to_set().contains(a[0]));
        }
        if b.len() > 0 {
            assert(b.to_set().contains(b[0]));
        }
        assert(a =~= b);
    } else {
        let x = a.last();
        let y = b.last();
        assert(a.to_set().contains(x));
        assert(b.to_set().contains(y));
        let i = choose|i: int| 0 <= i < b.len() && b[i] == x;
        let j = choose|j: int| 0 <= j < a.len() && a[j] == y;
        if x != y {
            assert(i < b.len() - 1);
            assert(j < a.len() - 1);
            assert(lex_lt(x, y));
            assert(lex_lt(y, x));
            lemma_lex_asym(x, y);
        }
        let a2 = a.drop_last();
        let b2 = b.drop_last();
        assert forall|v: Seq<char>| a2.to_set().contains(v) <==> b2.to_set().contains(v) by {
            if a2.to_set().contains(v) {
                let k = choose|k: int| 0 <= k < a2.len() && a2[k] == v;
                assert(a[k] == v && lex_lt(v, x));
                assert(b.to_set().contains(v));
                let m = choose|m: int| 0 <= m < b.len() && b[m] == v;
                if m == b.len() - 1 {
                    lemma_lex_irreflexive(v);
                }
                assert(b2[m] == v);
            }
            if b2.to_set().contains(v) {
                let k = choose|k: int| 0 <= k < b2.len() && b2[k] == v;
                assert(b[k] == v && lex_lt(v, y));
                assert(a.to_set().contains(v));
                let m = choose|m: int| 0 <= m < a.len() && a[m] == v;
                if m == a.len() - 1 {
                    lemma_lex_irreflexive(v);
                }
                assert(a2[m] == v);
            }
        }
        assert(a2.to_set() =~= b2.to_set());
        lemma_lex_increasing_unique(a2, b2);
        assert(a =~= a2.push(x));
        assert(b =~= b2.push(y));
    }
}

/// The names of a table in increasing order.
pub open spec fn sorted_names(m: Map<Seq<char>, Set<u32>>) -> Seq<Seq<char>> {
    choose|q: Seq<Seq<char>>| lex_increasing(q) && q.to_set() == m.dom()
}

/// `s` with every occurrence of the nonempty pattern `from` replaced by `to`, left to right, as
/// `str::replace` does it.
pub open spec fn replace_all(s: Seq<char>, from: Seq<char>, to: Seq<char>) -> Seq<char>
    decreases s.len(),
{
    if from.len() == 0 {
        s
    } else {
        match crate::css_text::find_from(s, from, 0) {
            Some(i) => {
                proof {
                    crate::css_text::lemma_find_from(s, from, 0);
                }
                s.take(i) + to + replace_all(s.skip(i + from.len()), from, to)
            },
            None => s,
        }
    }
}

/// `s` with every `"-s"` taken out.
fn remove_dash_s(s: &Vec<char>) -> (r: Vec<char>)
    ensures
        r@ == replace_all(s@, "-s"@, Seq::empty()),
    decreases s@.len(),
{
    let pat = chars_of("-s");
    proof {
        reveal_strlit("-s");
        crate::css_text::lemma_find_from(s@, pat@, 0);
    }
    match crate::css_text::find_chars(s, &pat, 0) {
        Some(i) => {
            let n = s.len();
            assert(i + 2 <= n);
            let head = slice_chars(s, 0, i);
            let tail = slice_chars(s, i + 2, n);
            assert(tail@ =~= s@.skip(i + 2));
            let rest = remove_dash_s(&tail);
            let mut out = head;
            push_chars(&mut out, &rest);
            assert(out@ =~= s@.take(i as int) + Seq::<char>::empty() + rest@);
            out
        },
        None => s.clone(),
    }
}

/// The name is that of a class of a CJK group.
pub open spec fn is_group_name(n: Seq<char>) -> bool {
    starts_with(n, "group-"@)
}

/// The group that a group class belongs to: the piece of its name after the first `-`.
pub open spec fn group_key(n: Seq<char>) -> Seq<char> {
    split_char(n, '-')[1]
}

/// The name a group class is listed under: without `group-`, and with every `-s` taken out.
pub open spec fn member_name(n: Seq<char>) -> Seq<char> {
    replace_all(n.skip(6), "-s"@, Seq::empty())
}

/// Picks the classes that are no group's.
pub open spec fn plain_class(k: Seq<char>) -> Option<Seq<char>> {
    if is_group_name(k) { None } else { Some(k) }
}

/// Picks the classes of the group `key`.
pub open spec fn group_class(key: Seq<char>) -> spec_fn(Seq<char>) -> Option<Seq<char>> {
    |k: Seq<char>| if is_group_name(k) && group_key(k) == key { Some(k) } else { None }
}

/// The ranges are the maximal runs of the set, in order.
pub open spec fn describes(ranges: Seq<RangeInclusive<char>>, set: Set<u32>) -> bool {
    &&& separated_ranges(ranges)
    &&& forall|x: u32| set.contains(x) <==> #[trigger] covers(ranges, x as int)
}

/// The group keys of the group classes among `names`.
pub open spec fn group_keys(names: Seq<Seq<char>>) -> Set<Seq<char>> {
    Set::new(|g: Seq<char>| exists|q: int| 0 <= q < names.len() && is_group_name(names[q]) && #[trigger] group_key(names[q]) == g)
}

/// A class, as character ranges.
pub struct GfSubset {
    pub name: String,
    pub ranges: Vec<RangeInclusive<char>>,
}

/// The classes of one CJK group.
pub struct GfSubsetGroup {
    pub name: String,
    pub subsets: Vec<GfSubset>,
}

/// The group `g` lists, in order, the classes of `origs` under their member names, each as the
/// ranges of its code points in `m`.
pub open spec fn group_lists(g: GfSubsetGroup, origs: Seq<Seq<char>>, m: Map<Seq<char>, Set<u32>>) -> bool {
    &&& g.subsets@.len() == origs.len()
    &&& forall|i: int| 0 <= i < origs.len() ==> {
        &&& (#[trigger] g.subsets@[i]).name@ == member_name(origs[i])
        &&& describes(g.subsets@[i].ranges@, m[origs[i]])
    }
}

proof fn lemma_filter_map_push(s: Seq<Seq<char>>, x: Seq<char>, f: spec_fn(Seq<char>) -> Option<Seq<char>>)
    ensures
        s.push(x).filter_map(f) == match f(x) {
            Some(y) => s.filter_map(f) + seq![y],
            None => s.filter_map(f),
        },
{
    assert(s.push(x).drop_last() =~= s);
}

proof fn lemma_filter_map_none(s: Seq<Seq<char>>, f: spec_fn(Seq<char>) -> Option<Seq<char>>)
    requires
        forall|i: int| 0 <= i < s.len() ==> f(#[trigger] s[i]) is None,
    ensures
        s.filter_map(f) == Seq::<Seq<char>>::empty(),
    decreases s.len(),
{
    if s.len() > 0 {
        lemma_filter_map_none(s.drop_last(), f);
    }
}

/// Sorts named bitmaps by name.
fn sort_entries(entries: Vec<(String, RoaringBitmap)>) -> (sorted: Vec<(String, RoaringBitmap)>)
    requires
        unique_names(entries@),
    ensures
        lex_increasing(names_of(sorted@)),
        names_of(sorted@).to_set() == names_of(entries@).to_set(),
        forall|i: int| 0 <= i < sorted@.len() ==>
            roaring_contents((#[trigger] sorted@[i]).1) == map_of(entries@)[sorted@[i].0@],
{
    let ghost all = entries@;
    let mut sorted: Vec<(String, RoaringBitmap)> = Vec::new();
    proof {
        assert(names_of(sorted@).to_set() =~= names_of(all.take(0)).to_set());
    }
    for e in it: entries.into_iter()
        invariant
            it.seq() == all,
            unique_names(all),
            lex_increasing(names_of(sorted@)),
            names_of(sorted@).to_set() == names_of(all.take(it.index() as int)).to_set(),
            forall|i: int| 0 <= i < sorted@.len() ==>
                roaring_contents((#[trigger] sorted@[i]).1) == map_of(all)[sorted@[i].0@],
    {
        let ghost k = it.index();
        let key = chars_of(e.0.as_str());
        let ghost ns = names_of(sorted@);
        proof {
            assert(!ns.to_set().contains(e.0@)) by {
                if ns.to_set().contains(e.0@) {
                    assert(names_of(all.take(k as int)).to_set().contains(e.0@));
                    let q = choose|q: int| 0 <= q < names_of(all.take(k as int)).len() && names_of(all.take(k as int))[q] == e.0@;
                    assert(all[q].0@ == all[k as int].0@);
                }
            }
        }
        let mut pos: usize = 0;
        while pos < sorted.len()
            invariant
                pos <= sorted@.len(),
                ns == names_of(sorted@),
                key@ == e.0@,
                forall|q: int| 0 <= q < pos ==> !lex_lt(key@, #[trigger] ns[q]),
            ensures
                pos <= sorted@.len(),
                forall|q: int| 0 <= q < pos ==> !lex_lt(key@, #[trigger] ns[q]),
                pos == sorted@.len() || lex_lt(key@, ns[pos as int]),
            decreases sorted@.len() - pos,
        {
            let other = chars_of(sorted[pos].0.as_str());
            if lex_less(&key, &other) {
                break;
            }
            pos = pos + 1;
        }
        let ghost before = sorted@;
        sorted.insert(pos, e);
        proof {
            let ns2 = names_of(sorted@);
            assert(ns2 =~= ns.insert(pos as int, e.0@));
            assert forall|q: int| 0 <= q < ns.len() implies (#[trigger] ns[q]) != key@ by {
                assert(ns.to_set().contains(ns[q]));
            }
            assert forall|a: int, b: int| 0 <= a < b < ns2.len() implies lex_lt(#[trigger] ns2[a], #[trigger] ns2[b]) by {
                if b < pos {
                } else if b == pos {
                    lemma_lex_total(key@, ns[a]);
                } else if a < pos {
                    lemma_lex_total(key@, ns[a]);
                    lemma_lex_trans(ns[a], key@, ns[b - 1]);
                    if pos < ns.len() {
                        lemma_lex_trans(key@, ns[pos as int], ns[b - 1]);
                        if b - 1 > pos {
                            assert(lex_lt(ns[pos as int], ns[b - 1]));
                        }
                    }
                } else if a == pos {
                    if b - 1 > pos {
                        assert(lex_lt(ns[pos as int], ns[b - 1]));
                        lemma_lex_trans(key@, ns[pos as int], ns[b - 1]);
                    }
                } else {
                }
            }
            assert(all.take(k + 1) =~= all.take(k as int).push(e));
            assert(names_of(all.take(k + 1)) =~= names_of(all.take(k as int)).push(e.0@));
            assert forall|v: Seq<char>| ns2.to_set().contains(v) == names_of(all.take(k + 1)).to_set().contains(v) by {
                crate::sort::lemma_push_contains(names_of(all.take(k as int)), e.0@, v);
                if ns2.to_set().contains(v) {
                    let q = choose|q: int| 0 <= q < ns2.len() && ns2[q] == v;
                    if q < pos {
                        assert(ns.to_set().contains(ns[q]));
                    } else if q > pos {
                        assert(ns.to_set().contains(ns[q - 1]));
                    }
                }
                if ns.to_set().contains(v) {
                    let q = choose|q: int| 0 <= q < ns.len() && ns[q] == v;
                    if q < pos {
                        assert(ns2[q] == v);
                    } else {
                        assert(ns2[q + 1] == v);
                    }
                }
                if v == e.0@ {
                    assert(ns2[pos as int] == v);
                }
            }
            assert(ns2.to_set() =~= names_of(all.take(k + 1)).to_set());
            lemma_map_of_at(all, k as int);
            assert forall|i: int| 0 <= i < sorted@.len() implies
                roaring_contents((#[trigger] sorted@[i]).1) == map_of(all)[sorted@[i].0@] by {
                if i < pos {
                    assert(sorted@[i] == before[i]);
                } else if i == pos {
                    assert(all[k as int] == sorted@[i]);
                } else {
                    assert(sorted@[i] == before[i - 1]);
                }
            }
        }
    }
    proof {
        assert(all.take(all.len() as int) =~= all);
    }
    sorted
}

/// Sorts the classes into plain classes and CJK groups: a class whose name starts with
/// `group-` goes to the group named by the piece of its name after the first `-`, listed under
/// its member name; the others stay plain. Plain classes, groups, and each group's classes come
/// in increasing order of name, and each class comes as the ranges of its code points.
pub fn sort_classes(table: CodepointTable) -> (r: (Vec<GfSubset>, Vec<GfSubsetGroup>))
    requires
        forall|k: Seq<char>| table.view_map().contains_key(k) ==> decodable_set(#[trigger] table.view_map()[k]),
    ensures
        r.0@.map_values(|s: GfSubset| s.name@) == sorted_names(table.view_map()).filter_map(|k: Seq<char>| plain_class(k)),
        forall|i: int| 0 <= i < r.0@.len() ==> describes((#[trigger] r.0@[i]).ranges@, table.view_map()[r.0@[i].name@]),
        lex_increasing(r.1@.map_values(|g: GfSubsetGroup| g.name@)),
        r.1@.map_values(|g: GfSubsetGroup| g.name@).to_set() == group_keys(sorted_names(table.view_map())),
        forall|j: int| 0 <= j < r.1@.len() ==> group_lists(#[trigger] r.1@[j],
            sorted_names(table.view_map()).filter_map(group_class(r.1@[j].name@)), table.view_map()),
{
    let ghost m = table.view_map();
    let entries = table.into_entries();
    let sorted = sort_entries(entries);
    let ghost names = names_of(sorted@);
    proof {
        assert(names.to_set() =~= m.dom()) by {
            assert forall|k: Seq<char>| names.to_set().contains(k) == m.dom().contains(k) by {}
        }
        lemma_lex_increasing_unique(names, sorted_names(m));
        reveal_strlit("group-");
    }
    let mut plain: Vec<GfSubset> = Vec::new();
    let mut groups: Vec<GfSubsetGroup> = Vec::new();
    proof {
        assert(names.take(0) =~= Seq::<Seq<char>>::empty());
        assert(plain@.map_values(|s: GfSubset| s.name@) =~= names.take(0).filter_map(|k: Seq<char>| plain_class(k)));
        assert(groups@.map_values(|g: GfSubsetGroup| g.name@).to_set() =~= group_keys(names.take(0)));
    }
    let mut k: usize = 0;
    while k < sorted.len()
        invariant
            k <= sorted@.len(),
            names == names_of(sorted@),
            names == sorted_names(m),
            forall|i: int| 0 <= i < sorted@.len() ==> roaring_contents((#[trigger] sorted@[i]).1) == m[sorted@[i].0@],
            forall|i: int| 0 <= i < sorted@.len() ==> m.contains_key(#[trigger] names[i]),
            forall|q: Seq<char>| m.contains_key(q) ==> decodable_set(#[trigger] m[q]),
            plain@.map_values(|s: GfSubset| s.name@) == names.take(k as int).filter_map(|q: Seq<char>| plain_class(q)),
            forall|i: int| 0 <= i < plain@.len() ==> describes((#[trigger] plain@[i]).ranges@, m[plain@[i].name@]),
            lex_increasing(groups@.map_values(|g: GfSubsetGroup| g.name@)),
            groups@.map_values(|g: GfSubsetGroup| g.name@).to_set() == group_keys(names.take(k as int)),
            forall|j: int| 0 <= j < groups@.len() ==> group_lists(#[trigger] groups@[j],
                names.take(k as int).filter_map(group_class(groups@[j].name@)), m),
        decreases sorted@.len() - k,
    {
        let ghost x = names[k as int];
        let ghost prefix = names.take(k as int);
        assert(names.take(k + 1) =~= prefix.push(x));
        assert(names[k as int] == sorted@[k as int].0@);
        let name_chars = chars_of(sorted[k].0.as_str());
        let ranges = decode_range(&sorted[k].1);
        let ghost gkeys = groups@.map_values(|g: GfSubsetGroup| g.name@);
        if chars_start_with(&name_chars, "group-") {
            proof {
                reveal_strlit("group-");
                assert(name_chars@[5] == '-') by {
                    assert(name_chars@.take(6)[5] == '-');
                }
                crate::css_text::lemma_split_char_len(name_chars@, '-');
            }
            let parts = split_chars(&name_chars, '-');
            let key = parts[1].clone();
            assert(key@ == group_key(x));
            let tail = slice_chars(&name_chars, 6, name_chars.len());
            assert(tail@ =~= x.skip(6));
            let member = remove_dash_s(&tail);
            let subset = GfSubset { name: string_from_chars(&member), ranges };
            let mut pos: usize = 0;
            while pos < groups.len()
                invariant
                    pos <= groups@.len(),
                    gkeys == groups@.map_values(|g: GfSubsetGroup| g.name@),
                    forall|q: int| 0 <= q < pos ==> lex_lt(#[trigger] gkeys[q], key@),
                ensures
                    pos <= groups@.len(),
                    forall|q: int| 0 <= q < pos ==> lex_lt(#[trigger] gkeys[q], key@),
                    pos == groups@.len() || !lex_lt(gkeys[pos as int], key@),
                decreases groups@.len() - pos,
            {
                let other = chars_of(groups[pos].name.as_str());
                if !lex_less(&other, &key) {
                    break;
                }
                pos = pos + 1;
            }
            let key_string = string_from_chars(&key);
            let found = pos < groups.len() && groups[pos].name == key_string;
            let ghost before = groups@;
            proof {
                assert(is_group_name(x));
                assert(plain_class(x) is None);
                lemma_filter_map_push(prefix, x, |q: Seq<char>| plain_class(q));
                assert forall|y: Seq<char>| group_keys(prefix.push(x)).contains(y) == (group_keys(prefix).contains(y) || y == key@) by {
                    if group_keys(prefix.push(x)).contains(y) {
                        let q = choose|q: int| 0 <= q < prefix.push(x).len() && is_group_name(prefix.push(x)[q]) && #[trigger] group_key(prefix.push(x)[q]) == y;
                        if q < prefix.len() {
                            assert(prefix.push(x)[q] == prefix[q]);
                        }
                    }
                    if group_keys(prefix).contains(y) {
                        let q = choose|q: int| 0 <= q < prefix.len() && is_group_name(prefix[q]) && #[trigger] group_key(prefix[q]) == y;
                        assert(prefix.push(x)[q] == prefix[q]);
                    }
                    if y == key@ {
                        assert(prefix.push(x)[prefix.len() as int] == x);
                    }
                }
                assert forall|j: int| 0 <= j < before.len() && before[j].name@ != key@ implies
                    prefix.push(x).filter_map(group_class(before[j].name@)) == prefix.filter_map(group_class(before[j].name@)) by {
                    lemma_filter_map_push(prefix, x, group_class(before[j].name@));
                }
            }
            if found {
                let mut g = groups.remove(pos);
                let ghost g0 = g;
                g.subsets.push(subset);
                groups.insert(pos, g);
                proof {
                    lemma_filter_map_push(prefix, x, group_class(key@));
                    let origs = prefix.filter_map(group_class(key@));
                    assert(group_lists(g0, origs, m));
                    assert(groups@ =~= before.update(pos as int, g));
                    assert(groups@.map_values(|g: GfSubsetGroup| g.name@) =~= gkeys);
                    assert forall|j: int| 0 <= j < groups@.len() implies group_lists(#[trigger] groups@[j],
                        prefix.push(x).filter_map(group_class(groups@[j].name@)), m) by {
                        if j == pos {
                            let o2 = prefix.push(x).filter_map(group_class(key@));
                            assert(o2 =~= origs + seq![x]);
                            assert forall|i: int| 0 <= i < o2.len() implies {
                                &&& (#[trigger] g.subsets@[i]).name@ == member_name(o2[i])
                                &&& describes(g.subsets@[i].ranges@, m[o2[i]])
                            } by {
                                if i < origs.len() {
                                    assert(g.subsets@[i] == g0.subsets@[i]);
                                }
                            }
                        } else {
                            assert(groups@[j] == before[j]);
                            if before[j].name@ == key@ {
                                assert(gkeys[j] == gkeys[pos as int]);
                                if j < pos {
                                    lemma_lex_irreflexive(key@);
                                } else {
                                    lemma_lex_irreflexive(key@);
                                }
                            }
                        }
                    }
                    assert(groups@.map_values(|g: GfSubsetGroup| g.name@).to_set() =~= group_keys(prefix.push(x))) by {
                        assert(gkeys.to_set().contains(key@)) by {
                            assert(gkeys[pos as int] == key@);
                        }
                    }
                }
            } else {
                let mut subsets: Vec<GfSubset> = Vec::new();
                subsets.push(subset);
                let g = GfSubsetGroup { name: key_string, subsets };
                groups.insert(pos, g);
                proof {
                    let ks2 = groups@.map_values(|g: GfSubsetGroup| g.name@);
                    assert(ks2 =~= gkeys.insert(pos as int, key@));
                    if pos < gkeys.len() {
                        lemma_lex_total(gkeys[pos as int], key@);
                    }
                    assert forall|q: int| 0 <= q < gkeys.len() implies (#[trigger] gkeys[q]) != key@ by {
                        if q < pos {
                            lemma_lex_irreflexive(key@);
                        } else if q > pos {
                            assert(lex_lt(gkeys[pos as int], gkeys[q]));
                            if gkeys[q] == key@ {
                                lemma_lex_asym(gkeys[pos as int], key@);
                            }
                        }
                    }
                    assert(!group_keys(prefix).contains(key@)) by {
                        if group_keys(prefix).contains(key@) {
                            assert(gkeys.to_set().contains(key@));
                        }
                    }
                    assert forall|a: int, b: int| 0 <= a < b < ks2.len() implies lex_lt(#[trigger] ks2[a], #[trigger] ks2[b]) by {
                        if b < pos {
                        } else if b == pos {
                        } else if a < pos {
                            lemma_lex_trans(ks2[a], key@, ks2[b]);
                            if b - 1 > pos {
                                assert(lex_lt(gkeys[pos as int], gkeys[b - 1]));
                                lemma_lex_trans(key@, gkeys[pos as int], gkeys[b - 1]);
                            }
                        } else if a == pos {
                            if b - 1 > pos {
                                assert(lex_lt(gkeys[pos as int], gkeys[b - 1]));
                                lemma_lex_trans(key@, gkeys[pos as int], gkeys[b - 1]);
                            }
                        } else {
                        }
                    }
                    assert forall|v: Seq<char>| ks2.to_set().contains(v) == group_keys(prefix.push(x)).contains(v) by {
                        if ks2.to_set().contains(v) {
                            let q = choose|q: int| 0 <= q < ks2.len() && ks2[q] == v;
                            if q < pos {
                                assert(gkeys.to_set().contains(gkeys[q]));
                            } else if q > pos {
                                assert(gkeys.to_set().contains(gkeys[q - 1]));
                            }
                        }
                        if gkeys.to_set().contains(v) {
                            let q = choose|q: int| 0 <= q < gkeys.len() && gkeys[q] == v;
                            if q < pos {
                                assert(ks2[q] == v);
                            } else {
                                assert(ks2[q + 1] == v);
                            }
                        }
                        if v == key@ {
                            assert(ks2[pos as int] == v);
                        }
                    }
                    assert(ks2.to_set() =~= group_keys(prefix.push(x)));
                    assert forall|i: int| 0 <= i < prefix.len() implies group_class(key@)(#[trigger] prefix[i]) is None by {
                        if is_group_name(prefix[i]) && group_key(prefix[i]) == key@ {
                            assert(group_keys(prefix).contains(key@));
                        }
                    }
                    lemma_filter_map_none(prefix, group_class(key@));
                    lemma_filter_map_push(prefix, x, group_class(key@));
                    assert forall|j: int| 0 <= j < groups@.len() implies group_lists(#[trigger] groups@[j],
                        prefix.push(x).filter_map(group_class(groups@[j].name@)), m) by {
                        if j < pos {
                            assert(groups@[j] == before[j]);
                            assert(gkeys[j] != key@);
                        } else if j == pos {
                            let o2 = prefix.push(x).filter_map(group_class(key@));
                            assert(o2 =~= seq![x]);
                            assert(groups@[j].subsets@[0] == subset);
                        } else {
                            assert(groups@[j] == before[j - 1]);
                            assert(gkeys[j - 1] != key@);
                        }
                    }
                }
            }
        } else {
            let ghost before = groups@;
            plain.push(GfSubset { name: sorted[k].0.clone(), ranges });
            proof {
                assert(plain_class(x) == Some(x));
                lemma_filter_map_push(prefix, x, |q: Seq<char>| plain_class(q));
                assert(plain@.map_values(|s: GfSubset| s.name@) =~= prefix.push(x).filter_map(|q: Seq<char>| plain_class(q)));
                assert forall|j: int| 0 <= j < groups@.len() implies group_lists(#[trigger] groups@[j],
                    prefix.push(x).filter_map(group_class(groups@[j].name@)), m) by {
                    lemma_filter_map_push(prefix, x, group_class(groups@[j].name@));
                    assert(group_class(groups@[j].name@)(x) is None);
                    assert(prefix.push(x).filter_map(group_class(groups@[j].name@)) == prefix.filter_map(group_class(groups@[j].name@)));
                    assert(group_lists(groups@[j], prefix.filter_map(group_class(groups@[j].name@)), m));
                }
                assert(group_keys(prefix.push(x)) =~= group_keys(prefix)) by {
                    assert forall|y: Seq<char>| group_keys(prefix.push(x)).contains(y) implies group_keys(prefix).contains(y) by {
                        let q = choose|q: int| 0 <= q < prefix.push(x).len() && is_group_name(prefix.push(x)[q]) && #[trigger] group_key(prefix.push(x)[q]) == y;
                        assert(q < prefix.len());
                        assert(prefix.push(x)[q] == prefix[q]);
                    }
                    assert forall|y: Seq<char>| group_keys(prefix).contains(y) implies group_keys(prefix.push(x)).contains(y) by {
                        let q = choose|q: int| 0 <= q < prefix.len() && is_group_name(prefix[q]) && #[trigger] group_key(prefix[q]) == y;
                        assert(prefix.push(x)[q] == prefix[q]);
                    }
                }
            }
        }
        k = k + 1;
    }
    proof {
        assert(names.take(k as int) =~= names);
    }
    (plain, groups)
}

/// The position of the general category of `c`, in the tables of `unic-ucd-category`, among
/// the variants of `unic_ucd_category::GeneralCategory` as that enum declares them.
pub uninterp spec fn unic_category_position(c: char) -> u8;

/// Calls `GeneralCategory::of` from `unic-ucd-category` and converts the category to its
/// position in the enum's declaration (30 variants, in the order of the Unicode Character
/// Database). The contract names the position as a function of the character.
#[verifier::external_body]
fn unic_category(c: char) -> (r: u8)
    ensures
        r == unic_category_position(c),
        r < 30,
{
    unic_ucd_category::GeneralCategory::of(c) as u8
}

/// The general category of `c` is a letter, a number, punctuation or a symbol, in the tables of
/// `unic-ucd-category`.
pub open spec fn plain_category(c: char) -> bool {
    let g = categories()[unic_category_position(c) as int];
    g.letter() || g.number() || g.punctuation() || g.symbol()
}

/// Whether the general category of `c` is a letter, a number, punctuation or a symbol.
fn has_plain_category(c: char) -> (r: bool)
    ensures
        r == plain_category(c),
{
    let g = category_at(unic_category(c));
    g.is_letter() || g.is_number() || g.is_punctuation() || g.is_symbol()
}

/// The lowercase hexadecimal digit of a value below 16.
pub open spec fn hex_lower_digit(d: int) -> char {
    if d < 10 { ((d + '0' as int) as u32) as char } else { ((d - 10 + 'a' as int) as u32) as char }
}

/// A number in lowercase hexadecimal, without leading zeros.
pub open spec fn hex_lower(n: nat) -> Seq<char>
    decreases n,
{
    if n < 16 {
        seq![hex_lower_digit(n as int)]
    } else {
        hex_lower(n / 16).push(hex_lower_digit((n % 16) as int))
    }
}

/// A character as `char::escape_unicode` writes it: `\u{` and its code in lowercase hexadecimal,
/// then `}`.
pub open spec fn escape_unicode(c: char) -> Seq<char> {
    "\\u{"@ + hex_lower(c as nat) + "}"@
}

/// A character as a Rust character literal in the data file: the quote and the space escaped
/// by hand, letters, numbers, punctuation and symbols as they are, anything else as a Unicode
/// escape.
pub open spec fn char_repr(c: char) -> Seq<char> {
    if c == '\'' {
        "'\\''"@
    } else if c == ' ' {
        "' '"@
    } else if plain_category(c) {
        seq!['\'', c, '\'']
    } else {
        "'"@ + escape_unicode(c) + "'"@
    }
}

/// A range in the data file: `o(c),` for a single character, `a..=b,` otherwise.
pub open spec fn range_repr(r: RangeInclusive<char>) -> Seq<char> {
    if r@.start == r@.end {
        "o("@ + char_repr(r@.start) + "),"@
    } else {
        char_repr(r@.start) + "..="@ + char_repr(r@.end) + ","@
    }
}

/// The ranges of a subset in the data file.
pub open spec fn ranges_repr(rs: Seq<RangeInclusive<char>>) -> Seq<char>
    decreases rs.len(),
{
    if rs.len() == 0 {
        Seq::empty()
    } else {
        ranges_repr(rs.drop_last()) + range_repr(rs.last())
    }
}

/// A subset in the data file, on a line of its own.
pub open spec fn subset_repr(s: GfSubset) -> Seq<char> {
    "GfSubset{name:"@ + debug_quoted(s.name@) + ",ranges:&["@ + ranges_repr(s.ranges@) + "],},\n"@
}

/// The subset lines of a list.
pub open spec fn subset_lines(subs: Seq<GfSubset>) -> Seq<char>
    decreases subs.len(),
{
    if subs.len() == 0 {
        Seq::empty()
    } else {
        subset_lines(subs.drop_last()) + subset_repr(subs.last())
    }
}

/// A list of subsets in the data file, between lines that give their number.
pub open spec fn subsets_block(subs: Seq<GfSubset>) -> Seq<char> {
    "// -- start "@ + decimal(subs.len()) + " ranges --\n"@ + subset_lines(subs) + "// -- end "@ + decimal(subs.len())
        + " ranges --\n"@
}

/// A group in the data file.
pub open spec fn group_block(g: GfSubsetGroup) -> Seq<char> {
    "        GfSubsetGroup {\n"@ + "            name: "@ + debug_quoted(g.name@) + ",\n"@ + "            subsets: &[\n"@
        + subsets_block(g.subsets@) + "            ],\n"@ + "        },\n"@
}

/// The groups of a list in the data file.
pub open spec fn group_blocks(gs: Seq<GfSubsetGroup>) -> Seq<char>
    decreases gs.len(),
{
    if gs.len() == 0 {
        Seq::empty()
    } else {
        group_blocks(gs.drop_last()) + group_block(gs.last())
    }
}

/// The data part of the subset data file: the constant with the plain subsets and the groups,
/// and the `impl` that makes it public.
pub open spec fn data_text(subs: Seq<GfSubset>, groups: Seq<GfSubsetGroup>) -> Seq<char> {
    "const DATA: GfSubsets = GfSubsets {\n"@ + "    subsets: &[\n"@ + subsets_block(subs) + "    ],\n"@
        + "    subset_groups: &[\n"@ + group_blocks(groups) + "    ],\n"@ + "};\n"@ + "impl GfSubsets {\n"@
        + "    pub const DATA: GfSubsets = DATA;\n"@ + "}\n"@
}

/// Writes a number in lowercase hexadecimal.
fn push_hex_lower(out: &mut Vec<char>, n: u32)
    ensures
        final(out)@ == old(out)@ + hex_lower(n as nat),
    decreases n,
{
    if n >= 16 {
        push_hex_lower(out, n / 16);
    }
    let d = n % 16;
    let c = if d < 10 { core::char::from_u32(d + 48).unwrap() } else { core::char::from_u32(d - 10 + 97).unwrap() };
    proof {
        assert(c == hex_lower_digit(d as int)) by {
            crate::text::lemma_char_code_injective(c, hex_lower_digit(d as int));
        }
    }
    out.push(c);
    proof {
        if n >= 16 {
            assert(final(out)@ =~= old(out)@ + hex_lower(n as nat));
        } else {
            assert(final(out)@ =~= old(out)@ + hex_lower(n as nat));
        }
    }
}

fn push_char_repr(out: &mut Vec<char>, c: char)
    ensures
        final(out)@ == old(out)@ + char_repr(c),
{
    proof {
        reveal_strlit("'\\''");
        reveal_strlit("' '");
        reveal_strlit("'");
        reveal_strlit("\\u{");
        reveal_strlit("}");
    }
    if c == '\'' {
        push_str(out, "'\\''");
    } else if c == ' ' {
        push_str(out, "' '");
    } else if has_plain_category(c) {
        out.push('\'');
        out.push(c);
        out.push('\'');
        proof {
            assert(final(out)@ =~= old(out)@ + seq!['\'', c, '\'']);
        }
    } else {
        push_str(out, "'");
        push_str(out, "\\u{");
        push_hex_lower(out, crate::text::char_code(c));
        push_str(out, "}");
        push_str(out, "'");
        proof {
            assert(final(out)@ =~= old(out)@ + ("'"@ + escape_unicode(c) + "'"@));
        }
    }
}

fn push_range(out: &mut Vec<char>, r: &RangeInclusive<char>)
    ensures
        final(out)@ == old(out)@ + range_repr(*r),
{
    proof {
        reveal_strlit("o(");
        reveal_strlit("),");
        reveal_strlit("..=");
        reveal_strlit(",");
    }
    let start = crate::ranges::range_start(r);
    let end = crate::ranges::range_end(r);
    let ghost before = out@;
    if start == end {
        push_str(out, "o(");
        push_char_repr(out, start);
        push_str(out, "),");
        proof {
            assert(out@ =~= before + ("o("@ + char_repr(start) + "),"@));
        }
    } else {
        push_char_repr(out, start);
        push_str(out, "..=");
        push_char_repr(out, end);
        push_str(out, ",");
        proof {
            assert(out@ =~= before + (char_repr(start) + "..="@ + char_repr(end) + ","@));
        }
    }
}

fn push_subset(out: &mut Vec<char>, s: &GfSubset)
    ensures
        final(out)@ == old(out)@ + subset_repr(*s),
{
    let ghost before = out@;
    push_str(out, "GfSubset{name:");
    let name = debug_str(s.name.as_str());
    push_str(out, name.as_str());
    push_str(out, ",ranges:&[");
    let ghost mid = out@;
    let mut k: usize = 0;
    while k < s.ranges.len()
        invariant
            k <= s.ranges@.len(),
            out@ == mid + ranges_repr(s.ranges@.take(k as int)),
        decreases s.ranges@.len() - k,
    {
        push_range(out, &s.ranges[k]);
        proof {
            assert(s.ranges@.take(k + 1).drop_last() =~= s.ranges@.take(k as int));
            assert(out@ =~= mid + ranges_repr(s.ranges@.take(k + 1)));
        }
        k = k + 1;
    }
    push_str(out, "],},\n");
    proof {
        assert(s.ranges@.take(k as int) =~= s.ranges@);
        assert(out@ =~= before + subset_repr(*s));
    }
}

fn push_subsets_block(out: &mut Vec<char>, subs: &Vec<GfSubset>)
    ensures
        final(out)@ == old(out)@ + subsets_block(subs@),
{
    let ghost before = out@;
    push_str(out, "// -- start ");
    push_decimal(out, subs.len() as u64);
    push_str(out, " ranges --\n");
    let ghost mid = out@;
    let mut k: usize = 0;
    while k < subs.len()
        invariant
            k <= subs@.len(),
            out@ == mid + subset_lines(subs@.take(k as int)),
        decreases subs@.len() - k,
    {
        push_subset(out, &subs[k]);
        proof {
            assert(subs@.take(k + 1).drop_last() =~= subs@.take(k as int));
            assert(out@ =~= mid + subset_lines(subs@.take(k + 1)));
        }
        k = k + 1;
    }
    push_str(out, "// -- end ");
    push_decimal(out, subs.len() as u64);
    push_str(out, " ranges --\n");
    proof {
        assert(subs@.take(k as int) =~= subs@);
        assert(out@ =~= before + subsets_block(subs@));
    }
}

fn push_group(out: &mut Vec<char>, g: &GfSubsetGroup)
    ensures
        final(out)@ == old(out)@ + group_block(*g),
{
    let ghost before = out@;
    push_str(out, "        GfSubsetGroup {\n");
    push_str(out, "            name: ");
    let name = debug_str(g.name.as_str());
    push_str(out, name.as_str());
    push_str(out, ",\n");
    push_str(out, "            subsets: &[\n");
    push_subsets_block(out, &g.subsets);
    push_str(out, "            ],\n");
    push_str(out, "        },\n");
    proof {
        assert(out@ =~= before + group_block(*g));
    }
}

/// The data part of the subset data file for the plain subsets and the groups (see
/// `data_text`).
pub fn gf_data_text(subs: &Vec<GfSubset>, groups: &Vec<GfSubsetGroup>) -> (r: String)
    ensures
        r@ == data_text(subs@, groups@),
{
    let mut out: Vec<char> = Vec::new();
    push_str(&mut out, "const DATA: GfSubsets = GfSubsets {\n");
    push_str(&mut out, "    subsets: &[\n");
    push_subsets_block(&mut out, subs);
    push_str(&mut out, "    ],\n");
    push_str(&mut out, "    subset_groups: &[\n");
    let ghost mid = out@;
    let mut k: usize = 0;
    while k < groups.len()
        invariant
            k <= groups@.len(),
            out@ == mid + group_blocks(groups@.take(k as int)),
        decreases groups@.len() - k,
    {
        push_group(&mut out, &groups[k]);
        proof {
            assert(groups@.take(k + 1).drop_last() =~= groups@.take(k as int));
            assert(out@ =~= mid + group_blocks(groups@.take(k + 1)));
        }
        k = k + 1;
    }
    push_str(&mut out, "    ],\n");
    push_str(&mut out, "};\n");
    push_str(&mut out, "impl GfSubsets {\n");
    push_str(&mut out, "    pub const DATA: GfSubsets = DATA;\n");
    push_str(&mut out, "}\n");
    proof {
        assert(groups@.take(k as int) =~= groups@);
        assert(out@ =~= data_text(subs@, groups@));
    }
    string_from_chars(&out)
}

} // verus!
