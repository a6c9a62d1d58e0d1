//! Line-level text operations on characters: trimming white space, prefixes and suffixes,
//! finding a pattern, and splitting at a separator.
use vstd::prelude::*;
use crate::text::matches_at;

verus! {

/// `c` has the Unicode `White_Space` property, the one that `char::is_whitespace` tests.
pub open spec fn is_white_space(c: char) -> bool {
    let x = c as u32;
    ||| 0x9 <= x <= 0xD
    ||| x == 0x20
    ||| x == 0x85
    ||| x == 0xA0
    ||| x == 0x1680
    ||| 0x2000 <= x <= 0x200A
    ||| x == 0x2028
    ||| x == 0x2029
    ||| x == 0x202F
    ||| x == 0x205F
    ||| x == 0x3000
}

/// Whether `c` is white space.
pub fn char_is_whitespace(c: char) -> (b: bool)
    ensures
        b == is_white_space(c),
{
    let x = c as u32;
    (0x9 <= x && x <= 0xD) || x == 0x20 || x == 0x85 || x == 0xA0 || x == 0x1680
        || (0x2000 <= x && x <= 0x200A) || x == 0x2028 || x == 0x2029 || x == 0x202F
        || x == 0x205F || x == 0x3000
}

/// `s` without its leading white space.
pub open spec fn trim_start(s: Seq<char>) -> Seq<char>
    decreases s.len(),
{
    if s.len() > 0 && is_white_space(s[0]) {
        trim_start(s.skip(1))
    } else {
        s
    }
}

/// `s` without its trailing white space.
pub open spec fn trim_end(s: Seq<char>) -> Seq<char>
    decreases s.len(),
{
    if s.len() > 0 && is_white_space(s.last()) {
        trim_end(s.drop_last())
    } else {
        s
    }
}

/// `s` without leading and trailing white space, as `str::trim` gives it.
pub open spec fn trim(s: Seq<char>) -> Seq<char> {
    trim_end(trim_start(s))
}

proof fn lemma_trim_start(s: Seq<char>, a: int)
    requires
        0 <= a <= s.len(),
        forall|i: int| 0 <= i < a ==> is_white_space(#[trigger] s[i]),
        a == s.len() || !is_white_space(s[a]),
    ensures
        trim_start(s) == s.skip(a),
    decreases a,
{
    if a == 0 {
        assert(s.skip(0) =~= s);
    } else {
        let t = s.skip(1);
        assert forall|i: int| 0 <= i < a - 1 implies is_white_space(#[trigger] t[i]) by {
            assert(t[i] == s[i + 1]);
        }
        if a < s.len() {
            assert(t[a - 1] == s[a]);
        }
        lemma_trim_start(t, a - 1);
        assert(t.skip(a - 1) =~= s.skip(a));
    }
}

proof fn lemma_trim_end(s: Seq<char>, b: int)
    requires
        0 <= b <= s.len(),
        forall|i: int| b <= i < s.len() ==> is_white_space(#[trigger] s[i]),
        b == 0 || !is_white_space(s[b - 1]),
    ensures
        trim_end(s) == s.take(b),
    decreases s.len() - b,
{
    if b == s.len() {
        assert(s.take(b) =~= s);
    } else {
        let t = s.drop_last();
        assert forall|i: int| b <= i < t.len() implies is_white_space(#[trigger] t[i]) by {
            assert(t[i] == s[i]);
        }
        if b > 0 {
            assert(t[b - 1] == s[b - 1]);
        }
        lemma_trim_end(t, b);
        assert(t.take(b) =~= s.take(b));
    }
}

/// The characters of `s` from `start` to `end`.
pub fn slice_chars(s: &Vec<char>, start: usize, end: usize) -> (r: Vec<char>)
    requires
        start <= end <= s@.len(),
    ensures
        r@ == s@.subrange(start as int, end as int),
{
    let mut r: Vec<char> = Vec::new();
    let mut i: usize = start;
    while i < end
        invariant
            start <= i <= end <= s@.len(),
            r@ == s@.subrange(start as int, i as int),
        decreases end - i,
    {
        r.push(s[i]);
        assert(s@.subrange(start as int, i + 1) =~= s@.subrange(start as int, i as int).push(s@[i as int]));
        i = i + 1;
    }
    r
}

/// `s` without leading and trailing white space.
pub fn trim_chars(s: &Vec<char>) -> (r: Vec<char>)
    ensures
        r@ == trim(s@),
{
    let mut a: usize = 0;
    while a < s.len() && char_is_whitespace(s[a])
        invariant
            a <= s@.len(),
            forall|i: int| 0 <= i < a ==> is_white_space(#[trigger] s@[i]),
        decreases s@.len() - a,
    {
        a = a + 1;
    }
    proof {
        lemma_trim_start(s@, a as int);
    }
    let mut b: usize = s.len();
    while b > a && char_is_whitespace(s[b - 1])
        invariant
            a <= b <= s@.len(),
            forall|i: int| b <= i < s@.len() ==> is_white_space(#[trigger] s@[i]),
        decreases b - a,
    {
        b = b - 1;
    }
    let r = slice_chars(s, a, b);
    proof {
        let t = s@.skip(a as int);
        let c = (b - a) as int;
        assert forall|i: int| c <= i < t.len() implies is_white_space(#[trigger] t[i]) by {
            assert(t[i] == s@[i + a]);
        }
        if c > 0 {
            assert(t[c - 1] == s@[b - 1]);
        }
        lemma_trim_end(t, c);
        assert(t.take(c) =~= s@.subrange(a as int, b as int));
    }
    r
}

/// `s` begins with `p`.
pub open spec fn starts_with(s: Seq<char>, p: Seq<char>) -> bool {
    p.len() <= s.len() && s.take(p.len() as int) == p
}

/// `s` ends with `p`.
pub open spec fn ends_with(s: Seq<char>, p: Seq<char>) -> bool {
    p.len() <= s.len() && s.skip(s.len() - p.len()) == p
}

/// Whether `s` begins with `p`.
pub fn chars_start_with(s: &Vec<char>, p: &str) -> (b: bool)
    ensures
        b == starts_with(s@, p@),
{
    let pv = crate::text::chars_of(p);
    if pv.len() > s.len() {
        return false;
    }
    let r = matches_at(s, &pv, 0);
    assert(s@.subrange(0, pv@.len() as int) =~= s@.take(pv@.len() as int));
    r
}

/// Whether `s` ends with `p`.
pub fn chars_end_with(s: &Vec<char>, p: &str) -> (b: bool)
    ensures
        b == ends_with(s@, p@),
{
    let pv = crate::text::chars_of(p);
    if pv.len() > s.len() {
        return false;
    }
    let start = s.len() - pv.len();
    let r = matches_at(s, &pv, start);
    assert(s@.subrange(start as int, start + pv@.len()) =~= s@.skip(start as int));
    r
}

/// The first position at or after `i` where `p` occurs in `s`.
pub open spec fn find_from(s: Seq<char>, p: Seq<char>, i: int) -> Option<int>
    decreases s.len() - i,
{
    if i < 0 || i + p.len() > s.len() {
        None
    } else if s.subrange(i, i + p.len()) == p {
        Some(i)
    } else if i >= s.len() {
        None
    } else {
        find_from(s, p, i + 1)
    }
}

/// Finds `p` in `s` from position `start` on.
pub fn find_chars(s: &Vec<char>, p: &Vec<char>, start: usize) -> (r: Option<usize>)
    requires
        start <= s@.len(),
    ensures
        match r {
            Some(i) => find_from(s@, p@, start as int) == Some(i as int),
            None => find_from(s@, p@, start as int) is None,
        },
{
    let mut i: usize = start;
    while p.len() <= s.len() - i
        invariant
            start <= i <= s@.len(),
            find_from(s@, p@, start as int) == find_from(s@, p@, i as int),
        decreases s@.len() - i,
    {
        if matches_at(s, p, i) {
            return Some(i);
        }
        assert(p@.len() > 0) by {
            if p@.len() == 0 {
                assert(s@.subrange(i as int, i as int) =~= p@);
            }
        }
        i = i + 1;
    }
    None
}

/// The part of `s` before the first `p`, the whole of `s` if there is none: what
/// `s.split(p).next()` gives.
pub open spec fn before(s: Seq<char>, p: Seq<char>) -> Seq<char> {
    match find_from(s, p, 0) {
        Some(i) => s.take(i),
        None => s,
    }
}

/// The part of `s` between the first `p` and the next one (or the end): what
/// `s.split(p).nth(1)` gives when `p` occurs.
pub open spec fn after_first(s: Seq<char>, p: Seq<char>) -> Seq<char> {
    match find_from(s, p, 0) {
        Some(i) => match find_from(s, p, i + p.len()) {
            Some(j) => s.subrange(i + p.len(), j),
            None => s.skip(i + p.len()),
        },
        None => Seq::empty(),
    }
}

/// Every position where `find_from` stops holds `p`, in range.
pub proof fn lemma_find_from(s: Seq<char>, p: Seq<char>, i: int)
    ensures
        find_from(s, p, i) matches Some(j) ==> i <= j && j + p.len() <= s.len() && s.subrange(j, j + p.len()) == p,
    decreases s.len() - i,
{
    if !(i < 0 || i + p.len() > s.len()) && s.subrange(i, i + p.len()) != p && i < s.len() {
        lemma_find_from(s, p, i + 1);
    }
}

/// The part of `s` before the first `p`.
pub fn before_chars(s: &Vec<char>, p: &str) -> (r: Vec<char>)
    ensures
        r@ == before(s@, p@),
{
    let pv = crate::text::chars_of(p);
    proof { lemma_find_from(s@, pv@, 0); }
    match find_chars(s, &pv, 0) {
        Some(i) => slice_chars(s, 0, i),
        None => s.clone(),
    }
}

/// The part of `s` between the first `p` and the next one.
pub fn after_first_chars(s: &Vec<char>, p: &str) -> (r: Vec<char>)
    ensures
        r@ == after_first(s@, p@),
{
    let pv = crate::text::chars_of(p);
    proof { lemma_find_from(s@, pv@, 0); }
    match find_chars(s, &pv, 0) {
        Some(i) => {
            let n = s.len();
            let m = pv.len();
            assert(i + m <= n);
            let from = i + m;
            proof { lemma_find_from(s@, pv@, from as int); }
            match find_chars(s, &pv, from) {
                Some(j) => slice_chars(s, from, j),
                None => slice_chars(s, from, s.len()),
            }
        },
        None => Vec::new(),
    }
}

/// The pieces of `s` between the occurrences of `c`, as `str::split` gives them.
pub open spec fn split_char(s: Seq<char>, c: char) -> Seq<Seq<char>>
    decreases s.len(),
{
    match find_from(s, seq![c], 0) {
        Some(i) => {
            proof {
                lemma_find_from(s, seq![c], 0);
            }
            seq![s.take(i)] + split_char(s.skip(i + 1), c)
        },
        None => seq![s],
    }
}

/// `s` holds the character `c`.
pub open spec fn has_char(s: Seq<char>, c: char) -> bool {
    exists|i: int| 0 <= i < s.len() && s[i] == c
}

/// Splits `s` at every `c`.
pub fn split_chars(s: &Vec<char>, c: char) -> (parts: Vec<Vec<char>>)
    ensures
        parts@.map_values(|v: Vec<char>| v@) == split_char(s@, c),
    decreases s@.len(),
{
    let sep = vec![c];
    proof {
        assert(sep@ =~= seq![c]);
        lemma_find_from(s@, sep@, 0);
    }
    match find_chars(s, &sep, 0) {
        Some(i) => {
            let n = s.len();
            assert(i + 1 <= n);
            let head = slice_chars(s, 0, i);
            let tail = slice_chars(s, i + 1, s.len());
            assert(tail@ =~= s@.skip(i + 1));
            let rest = split_chars(&tail, c);
            let mut parts: Vec<Vec<char>> = Vec::new();
            parts.push(head);
            let mut k: usize = 0;
            let ghost rest_view = rest@.map_values(|v: Vec<char>| v@);
            let mut rest = rest;
            while k < rest.len()
                invariant
                    k <= rest@.len(),
                    rest@.map_values(|v: Vec<char>| v@) == rest_view,
                    parts@.len() == k + 1,
                    parts@[0]@ == s@.take(i as int),
                    forall|q: int| 0 <= q < k ==> #[trigger] parts@[q + 1]@ == rest_view[q],
                decreases rest@.len() - k,
            {
                parts.push(rest[k].clone());
                k = k + 1;
            }
            proof {
                let pv = parts@.map_values(|v: Vec<char>| v@);
                let want = seq![s@.take(i as int)] + split_char(s@.skip(i + 1), c);
                assert(pv.len() == want.len());
                assert forall|q: int| 0 <= q < pv.len() implies pv[q] == want[q] by {
                    if q > 0 {
                        assert(parts@[(q - 1) + 1]@ == rest_view[q - 1]);
                    }
                }
                assert(pv =~= want);
            }
            parts
        },
        None => {
            let mut parts: Vec<Vec<char>> = Vec::new();
            parts.push(s.clone());
            proof {
                assert(parts@.map_values(|v: Vec<char>| v@) =~= seq![s@]);
            }
            parts
        },
    }
}

/// Where `find_from` finds nothing from `i` on, the pattern occurs nowhere from `i` on.
pub proof fn lemma_find_from_none(s: Seq<char>, p: Seq<char>, i: int, j: int)
    requires
        0 <= i <= j,
        j + p.len() <= s.len(),
        find_from(s, p, i) is None,
    ensures
        s.subrange(j, j + p.len()) != p,
    decreases j - i,
{
    if i < j {
        lemma_find_from_none(s, p, i + 1, j);
    }
}

/// Splitting gives at least one piece, and at least two where the separator occurs.
pub proof fn lemma_split_char_len(s: Seq<char>, c: char)
    ensures
        split_char(s, c).len() >= 1,
        has_char(s, c) ==> split_char(s, c).len() >= 2,
    decreases s.len(),
{
    match find_from(s, seq![c], 0) {
        Some(i) => {
            lemma_find_from(s, seq![c], 0);
            lemma_split_char_len(s.skip(i + 1), c);
        },
        None => {
            if has_char(s, c) {
                let k = choose|k: int| 0 <= k < s.len() && s[k] == c;
                lemma_find_from_none(s, seq![c], 0, k);
                assert(s.subrange(k, k + 1) =~= seq![c]);
            }
        },
    }
}

} // verus!
