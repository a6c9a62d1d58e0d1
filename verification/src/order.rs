//! Lexicographic order on sequences, as `Ord` orders slices and strings, and the comparisons
//! of strings, lists of strings and lists of integers that follow it.
use vstd::prelude::*;
use vstd::relations::{strict_total_ordering, irreflexive, sorted_by};
use crate::text::{chars_of, lemma_char_code_injective};

verus! {

/// The outcome of a three-way comparison.
#[derive(Copy, Clone, Debug, PartialEq, Eq, Structural)]
pub enum Comparison {
    Less,
    Equal,
    Greater,
}

/// `a` comes before `b`: at their first difference the element of `a` is smaller, or `a` is a
/// proper prefix of `b`.
pub open spec fn lex_less<T>(a: Seq<T>, b: Seq<T>, lt: spec_fn(T, T) -> bool) -> bool
    decreases a.len(),
{
    if b.len() == 0 {
        false
    } else if a.len() == 0 {
        true
    } else if a[0] != b[0] {
        lt(a[0], b[0])
    } else {
        lex_less(a.drop_first(), b.drop_first(), lt)
    }
}

/// The lexicographic order built on `lt`, as a relation.
pub open spec fn lex_rel<T>(lt: spec_fn(T, T) -> bool) -> spec_fn(Seq<T>, Seq<T>) -> bool {
    |a: Seq<T>, b: Seq<T>| lex_less(a, b, lt)
}

/// Characters by code point.
pub open spec fn char_lt() -> spec_fn(char, char) -> bool {
    |x: char, y: char| (x as u32) < (y as u32)
}

/// Strings by their characters (the order of `str`, whose bytes in UTF-8 compare as the code
/// points do).
pub open spec fn str_lt() -> spec_fn(Seq<char>, Seq<char>) -> bool {
    lex_rel(char_lt())
}

/// Lists of strings, string by string.
pub open spec fn strs_lt() -> spec_fn(Seq<Seq<char>>, Seq<Seq<char>>) -> bool {
    lex_rel(str_lt())
}

/// Integers by value.
pub open spec fn i32_lt() -> spec_fn(i32, i32) -> bool {
    |x: i32, y: i32| x < y
}

/// Lists of integers, value by value.
pub open spec fn i32s_lt() -> spec_fn(Seq<i32>, Seq<i32>) -> bool {
    lex_rel(i32_lt())
}

proof fn lemma_lex_irreflexive<T>(a: Seq<T>, lt: spec_fn(T, T) -> bool)
    requires
        irreflexive(lt),
    ensures
        !lex_less(a, a, lt),
    decreases a.len(),
{
    if a.len() > 0 {
        lemma_lex_irreflexive(a.drop_first(), lt);
    }
}

proof fn lemma_lex_asymmetric<T>(a: Seq<T>, b: Seq<T>, lt: spec_fn(T, T) -> bool)
    requires
        strict_total_ordering(lt),
    ensures
        !(lex_less(a, b, lt) && lex_less(b, a, lt)),
    decreases a.len(),
{
    if a.len() > 0 && b.len() > 0 {
        if a[0] != b[0] {
            assert(!(lt(a[0], b[0]) && lt(b[0], a[0])));
        } else {
            lemma_lex_asymmetric(a.drop_first(), b.drop_first(), lt);
        }
    }
}

proof fn lemma_lex_transitive<T>(a: Seq<T>, b: Seq<T>, c: Seq<T>, lt: spec_fn(T, T) -> bool)
    requires
        strict_total_ordering(lt),
        lex_less(a, b, lt),
        lex_less(b, c, lt),
    ensures
        lex_less(a, c, lt),
    decreases a.len(),
{
    if a.len() > 0 {
        let (x, y, z) = (a[0], b[0], c[0]);
        if x != y && y != z {
            assert(lt(x, z));
            if x == z {
                assert(lt(x, y) && lt(y, x));
            }
        } else if x != y {
            assert(lt(x, y));
        } else if y != z {
            assert(lt(y, z));
        } else {
            lemma_lex_transitive(a.drop_first(), b.drop_first(), c.drop_first(), lt);
        }
    }
}

proof fn lemma_lex_connected<T>(a: Seq<T>, b: Seq<T>, lt: spec_fn(T, T) -> bool)
    requires
        strict_total_ordering(lt),
        a != b,
    ensures
        lex_less(a, b, lt) || lex_less(b, a, lt),
    decreases a.len(),
{
    if a.len() > 0 && b.len() > 0 {
        if a[0] != b[0] {
            assert(lt(a[0], b[0]) || lt(b[0], a[0]));
        } else {
            if a.drop_first() == b.drop_first() {
                assert(a =~= seq![a[0]] + a.drop_first());
                assert(b =~= seq![b[0]] + b.drop_first());
            }
            lemma_lex_connected(a.drop_first(), b.drop_first(), lt);
        }
    } else if a.len() == 0 && b.len() == 0 {
        assert(a =~= b);
    }
}

/// The lexicographic order on a strict total order is a strict total order.
pub proof fn lemma_lex_strict_total<T>(lt: spec_fn(T, T) -> bool)
    requires
        strict_total_ordering(lt),
    ensures
        strict_total_ordering(lex_rel(lt)),
{
    let r = lex_rel(lt);
    assert forall|x: Seq<T>| #[trigger] r(x, x) == false by {
        lemma_lex_irreflexive(x, lt);
    }
    assert forall|x: Seq<T>, y: Seq<T>| #[trigger] r(x, y) && #[trigger] r(y, x) implies x == y by {
        lemma_lex_asymmetric(x, y, lt);
    }
    assert forall|x: Seq<T>, y: Seq<T>, z: Seq<T>| #[trigger] r(x, y) && #[trigger] r(y, z) implies r(x, z) by {
        lemma_lex_transitive(x, y, z, lt);
    }
    assert forall|x: Seq<T>, y: Seq<T>| x != y implies #[trigger] r(x, y) || #[trigger] r(y, x) by {
        lemma_lex_connected(x, y, lt);
    }
}

/// The orders on characters, strings, lists of strings, integers and lists of integers are
/// strict total orders.
pub proof fn lemma_orders_strict_total()
    ensures
        strict_total_ordering(char_lt()),
        strict_total_ordering(str_lt()),
        strict_total_ordering(strs_lt()),
        strict_total_ordering(i32_lt()),
        strict_total_ordering(i32s_lt()),
{
    let c = char_lt();
    assert forall|x: char, y: char| x != y implies #[trigger] c(x, y) || #[trigger] c(y, x) by {
        lemma_char_code_injective(x, y);
    }
    assert forall|x: char, y: char| #[trigger] c(x, y) && #[trigger] c(y, x) implies x == y by {}
    lemma_lex_strict_total(c);
    lemma_lex_strict_total(str_lt());
    lemma_lex_strict_total(i32_lt());
}

/// Comparing after a shared prefix compares what follows it.
proof fn lemma_lex_skip<T>(a: Seq<T>, b: Seq<T>, i: int, lt: spec_fn(T, T) -> bool)
    requires
        0 <= i <= a.len(),
        i <= b.len(),
        a.take(i) == b.take(i),
    ensures
        lex_less(a, b, lt) == lex_less(a.skip(i), b.skip(i), lt),
    decreases i,
{
    if i == 0 {
        assert(a.skip(0) =~= a);
        assert(b.skip(0) =~= b);
    } else {
        assert(a[0] == a.take(i)[0]);
        assert(b[0] == b.take(i)[0]);
        assert(a.drop_first().take(i - 1) =~= a.take(i).drop_first());
        assert(b.drop_first().take(i - 1) =~= b.take(i).drop_first());
        lemma_lex_skip(a.drop_first(), b.drop_first(), i - 1, lt);
        assert(a.drop_first().skip(i - 1) =~= a.skip(i));
        assert(b.drop_first().skip(i - 1) =~= b.skip(i));
    }
}

/// What a three-way comparison says of `a` and `b` under `lt`.
pub open spec fn compares_as<T>(r: Comparison, a: T, b: T, lt: spec_fn(T, T) -> bool) -> bool {
    match r {
        Comparison::Less => lt(a, b),
        Comparison::Equal => a == b,
        Comparison::Greater => lt(b, a),
    }
}

/// Compares two strings character by character.
pub fn compare_strings(a: &str, b: &str) -> (r: Comparison)
    ensures
        compares_as(r, a@, b@, str_lt()),
{
    let x = chars_of(a);
    let y = chars_of(b);
    let mut i: usize = 0;
    while i < x.len() && i < y.len() && x[i] == y[i]
        invariant
            i <= x@.len(),
            i <= y@.len(),
            x@ == a@,
            y@ == b@,
            x@.take(i as int) == y@.take(i as int),
        decreases x@.len() - i,
    {
        assert(x@.take(i + 1) =~= x@.take(i as int).push(x@[i as int]));
        assert(y@.take(i + 1) =~= y@.take(i as int).push(y@[i as int]));
        i = i + 1;
    }
    proof {
        lemma_lex_skip(x@, y@, i as int, char_lt());
        lemma_lex_skip(y@, x@, i as int, char_lt());
    }
    if i < x.len() && i < y.len() {
        let (u, v) = (x[i], y[i]);
        proof {
            assert(x@.skip(i as int)[0] == u);
            assert(y@.skip(i as int)[0] == v);
        }
        if (u as u32) < (v as u32) {
            Comparison::Less
        } else {
            proof {
                lemma_char_code_injective(u, v);
            }
            Comparison::Greater
        }
    } else if i < y.len() {
        Comparison::Less
    } else if i < x.len() {
        Comparison::Greater
    } else {
        assert(x@ =~= x@.take(i as int));
        assert(y@ =~= y@.take(i as int));
        Comparison::Equal
    }
}

/// The texts of a list of strings.
pub open spec fn string_views(v: Seq<String>) -> Seq<Seq<char>> {
    v.map_values(|s: String| s@)
}

/// Compares two lists of strings string by string.
pub fn compare_string_lists(a: &Vec<String>, b: &Vec<String>) -> (r: Comparison)
    ensures
        compares_as(r, string_views(a@), string_views(b@), strs_lt()),
{
    let ghost x = string_views(a@);
    let ghost y = string_views(b@);
    let mut i: usize = 0;
    while i < a.len() && i < b.len()
        invariant
            i <= a@.len(),
            i <= b@.len(),
            x == string_views(a@),
            y == string_views(b@),
            x.take(i as int) == y.take(i as int),
        decreases a@.len() - i,
    {
        let c = compare_strings(a[i].as_str(), b[i].as_str());
        proof {
            lemma_orders_strict_total();
            lemma_lex_skip(x, y, i as int, str_lt());
            lemma_lex_skip(y, x, i as int, str_lt());
            assert(x[i as int] == a@[i as int]@);
            assert(y[i as int] == b@[i as int]@);
            assert(x.skip(i as int)[0] == x[i as int]);
            assert(y.skip(i as int)[0] == y[i as int]);
            if c != Comparison::Equal {
                assert(x[i as int] != y[i as int]);
            }
        }
        match c {
            Comparison::Less => {
                return Comparison::Less;
            },
            Comparison::Greater => {
                return Comparison::Greater;
            },
            Comparison::Equal => {},
        }
        assert(x.take(i + 1) =~= x.take(i as int).push(x[i as int]));
        assert(y.take(i + 1) =~= y.take(i as int).push(y[i as int]));
        i = i + 1;
    }
    proof {
        lemma_lex_skip(x, y, i as int, str_lt());
        lemma_lex_skip(y, x, i as int, str_lt());
    }
    if i < b.len() {
        Comparison::Less
    } else if i < a.len() {
        Comparison::Greater
    } else {
        assert(x =~= x.take(i as int));
        assert(y =~= y.take(i as int));
        Comparison::Equal
    }
}

/// Compares two lists of integers value by value.
pub fn compare_i32_lists(a: &Vec<i32>, b: &Vec<i32>) -> (r: Comparison)
    ensures
        compares_as(r, a@, b@, i32s_lt()),
{
    let mut i: usize = 0;
    while i < a.len() && i < b.len() && a[i] == b[i]
        invariant
            i <= a@.len(),
            i <= b@.len(),
            a@.take(i as int) == b@.take(i as int),
        decreases a@.len() - i,
    {
        assert(a@.take(i + 1) =~= a@.take(i as int).push(a@[i as int]));
        assert(b@.take(i + 1) =~= b@.take(i as int).push(b@[i as int]));
        i = i + 1;
    }
    proof {
        lemma_lex_skip(a@, b@, i as int, i32_lt());
        lemma_lex_skip(b@, a@, i as int, i32_lt());
    }
    if i < a.len() && i < b.len() {
        assert(a@.skip(i as int)[0] == a@[i as int]);
        assert(b@.skip(i as int)[0] == b@[i as int]);
        if a[i] < b[i] { Comparison::Less } else { Comparison::Greater }
    } else if i < b.len() {
        Comparison::Less
    } else if i < a.len() {
        Comparison::Greater
    } else {
        assert(a@ =~= a@.take(i as int));
        assert(b@ =~= b@.take(i as int));
        Comparison::Equal
    }
}

/// Inserting `x` where everything before it is smaller and everything after it larger keeps a
/// sequence sorted.
pub proof fn lemma_insert_sorted<T>(s: Seq<T>, p: int, x: T, lt: spec_fn(T, T) -> bool)
    requires
        strict_total_ordering(lt),
        sorted_by(s, lt),
        0 <= p <= s.len(),
        forall|i: int| 0 <= i < p ==> #[trigger] lt(s[i], x),
        p < s.len() ==> lt(x, s[p]),
    ensures
        sorted_by(s.insert(p, x), lt),
{
    let t = s.insert(p, x);
    s.insert_ensures(p, x);
    assert forall|i: int, j: int| 0 <= i < j < t.len() implies #[trigger] lt(t[i], t[j]) by {
        if j < p {
            assert(t[i] == s[i] && t[j] == s[j]);
        } else if j == p {
            assert(t[i] == s[i]);
        } else if i < p {
            assert(t[i] == s[i] && t[j] == s[j - 1]);
            if p < j - 1 {
                assert(lt(s[p], s[j - 1]));
            }
            assert(lt(x, s[j - 1]));
        } else if i == p {
            assert(t[j] == s[j - 1]);
            if p < j - 1 {
                assert(lt(s[p], s[j - 1]));
            }
        } else {
            assert(t[i] == s[i - 1] && t[j] == s[j - 1]);
        }
    }
}

/// A sorted sequence holds no element twice.
pub proof fn lemma_sorted_distinct<T>(s: Seq<T>, lt: spec_fn(T, T) -> bool, i: int, j: int)
    requires
        strict_total_ordering(lt),
        sorted_by(s, lt),
        0 <= i < s.len(),
        0 <= j < s.len(),
        i != j,
    ensures
        s[i] != s[j],
{
    if i < j {
        assert(lt(s[i], s[j]));
    } else {
        assert(lt(s[j], s[i]));
    }
}

/// Adds a string to a sorted list of distinct strings, where it is not there yet.
pub fn insert_sorted_string(v: &mut Vec<String>, t: &str)
    requires
        sorted_by(string_views(old(v)@), str_lt()),
    ensures
        sorted_by(string_views(final(v)@), str_lt()),
        string_views(final(v)@).to_set() == string_views(old(v)@).to_set().insert(t@),
{
    proof {
        lemma_orders_strict_total();
    }
    let ghost s = string_views(v@);
    let mut p: usize = 0;
    while p < v.len()
        invariant
            p <= v@.len(),
            s == string_views(v@),
            sorted_by(s, str_lt()),
            strict_total_ordering(str_lt()),
            forall|i: int| 0 <= i < p ==> #[trigger] str_lt()(s[i], t@),
        ensures
            p <= v@.len(),
            s == string_views(v@),
            forall|i: int| 0 <= i < p ==> #[trigger] str_lt()(s[i], t@),
            p < v@.len() ==> str_lt()(t@, s[p as int]),
        decreases v@.len() - p,
    {
        match compare_strings(v[p].as_str(), t) {
            Comparison::Less => {},
            Comparison::Equal => {
                assert(s[p as int] == t@);
                assert(s.to_set().insert(t@) =~= s.to_set());
                return;
            },
            Comparison::Greater => {
                break;
            },
        }
        p = p + 1;
    }
    let ghost before = v@;
    v.insert(p, t.to_owned());
    proof {
        assert(string_views(v@) =~= s.insert(p as int, t@));
        lemma_insert_sorted(s, p as int, t@, str_lt());
        s.insert_ensures(p as int, t@);
        assert forall|x: Seq<char>| string_views(v@).to_set().contains(x) <==> s.to_set().insert(t@).contains(x) by {
            if string_views(v@).to_set().contains(x) {
                let k = choose|k: int| 0 <= k < string_views(v@).len() && string_views(v@)[k] == x;
                if k < p {
                    assert(s[k] == x);
                } else if k > p {
                    assert(s[k - 1] == x);
                }
            }
            if s.to_set().contains(x) {
                let k = choose|k: int| 0 <= k < s.len() && s[k] == x;
                if k < p {
                    assert(string_views(v@)[k] == x);
                } else {
                    assert(string_views(v@)[k + 1] == x);
                }
            }
            if x == t@ {
                assert(string_views(v@)[p as int] == x);
            }
        }
        assert(string_views(v@).to_set() =~= s.to_set().insert(t@));
    }
}

/// Adds an integer to a strictly increasing list, where it is not there yet.
pub fn insert_sorted_i32(v: &mut Vec<i32>, x: i32)
    requires
        sorted_by(old(v)@, i32_lt()),
    ensures
        sorted_by(final(v)@, i32_lt()),
        final(v)@.to_set() == old(v)@.to_set().insert(x),
{
    proof {
        lemma_orders_strict_total();
    }
    let ghost s = v@;
    let mut p: usize = 0;
    while p < v.len()
        invariant
            p <= v@.len(),
            s == v@,
            sorted_by(s, i32_lt()),
            strict_total_ordering(i32_lt()),
            forall|i: int| 0 <= i < p ==> #[trigger] s[i] < x,
        ensures
            p <= v@.len(),
            s == v@,
            forall|i: int| 0 <= i < p ==> #[trigger] s[i] < x,
            p < v@.len() ==> x < s[p as int],
        decreases v@.len() - p,
    {
        if v[p] == x {
            assert(s.to_set().insert(x) =~= s.to_set());
            return;
        }
        if v[p] > x {
            break;
        }
        p = p + 1;
    }
    v.insert(p, x);
    proof {
        assert forall|i: int| 0 <= i < p implies #[trigger] i32_lt()(s[i], x) by {}
        lemma_insert_sorted(s, p as int, x, i32_lt());
        s.insert_ensures(p as int, x);
        assert forall|y: i32| v@.to_set().contains(y) <==> s.to_set().insert(x).contains(y) by {
            if v@.to_set().contains(y) {
                let k = choose|k: int| 0 <= k < v@.len() && v@[k] == y;
                if k < p {
                    assert(s[k] == y);
                } else if k > p {
                    assert(s[k - 1] == y);
                }
            }
            if s.to_set().contains(y) {
                let k = choose|k: int| 0 <= k < s.len() && s[k] == y;
                if k < p {
                    assert(v@[k] == y);
                } else {
                    assert(v@[k + 1] == y);
                }
            }
            if y == x {
                assert(v@[p as int] == y);
            }
        }
        assert(v@.to_set() =~= s.to_set().insert(x));
    }
}

/// A copy of a list of strings.
pub fn copy_strings(v: &Vec<String>) -> (r: Vec<String>)
    ensures
        r@ == v@,
{
    let mut r: Vec<String> = Vec::new();
    let mut i: usize = 0;
    while i < v.len()
        invariant
            i <= v@.len(),
            r@ == v@.take(i as int),
        decreases v@.len() - i,
    {
        r.push(v[i].clone());
        assert(r@ =~= v@.take(i + 1));
        i = i + 1;
    }
    assert(v@.take(v@.len() as int) =~= v@);
    r
}

/// A copy of a list of integers.
pub fn copy_i32s(v: &Vec<i32>) -> (r: Vec<i32>)
    ensures
        r@ == v@,
{
    let mut r: Vec<i32> = Vec::new();
    let mut i: usize = 0;
    while i < v.len()
        invariant
            i <= v@.len(),
            r@ == v@.take(i as int),
        decreases v@.len() - i,
    {
        r.push(v[i]);
        assert(r@ =~= v@.take(i + 1));
        i = i + 1;
    }
    assert(v@.take(v@.len() as int) =~= v@);
    r
}

/// Appending an element larger than all others keeps a sequence sorted.
pub proof fn lemma_push_sorted<T>(s: Seq<T>, x: T, lt: spec_fn(T, T) -> bool)
    requires
        sorted_by(s, lt),
        forall|j: int| 0 <= j < s.len() ==> #[trigger] lt(s[j], x),
    ensures
        sorted_by(s.push(x), lt),
{
    let t = s.push(x);
    assert forall|i: int, j: int| 0 <= i < j < t.len() implies #[trigger] lt(t[i], t[j]) by {
        if j < s.len() {
            assert(t[i] == s[i] && t[j] == s[j]);
        } else {
            assert(t[i] == s[i]);
        }
    }
}

/// The elements of a sorted sequence after its first are the others of its set.
proof fn lemma_sorted_tail_set<T>(a: Seq<T>, lt: spec_fn(T, T) -> bool)
    requires
        strict_total_ordering(lt),
        sorted_by(a, lt),
        a.len() > 0,
    ensures
        a.drop_first().to_set() == a.to_set().remove(a[0]),
{
    let t = a.drop_first();
    assert forall|y: T| t.to_set().contains(y) <==> a.to_set().remove(a[0]).contains(y) by {
        if t.to_set().contains(y) {
            let k = choose|k: int| 0 <= k < t.len() && t[k] == y;
            assert(a[k + 1] == y);
            assert(lt(a[0], a[k + 1]));
        }
        if a.to_set().remove(a[0]).contains(y) {
            let k = choose|k: int| 0 <= k < a.len() && a[k] == y;
            assert(k != 0);
            assert(t[k - 1] == y);
        }
    }
    assert(t.to_set() =~= a.to_set().remove(a[0]));
}

/// Two sorted sequences with the same elements are equal.
pub proof fn lemma_sorted_unique<T>(a: Seq<T>, b: Seq<T>, lt: spec_fn(T, T) -> bool)
    requires
        strict_total_ordering(lt),
        sorted_by(a, lt),
        sorted_by(b, lt),
        a.to_set() == b.to_set(),
    ensures
        a == b,
    decreases a.len(),
{
    if a.len() == 0 {
        if b.len() > 0 {
            assert(b.to_set().contains(b[0]));
        }
        assert(a =~= b);
    } else {
        if b.len() == 0 {
            assert(a.to_set().contains(a[0]));
        }
        assert(a.to_set().contains(a[0]));
        assert(b.to_set().contains(b[0]));
        let j = choose|j: int| 0 <= j < b.len() && b[j] == a[0];
        let i = choose|i: int| 0 <= i < a.len() && a[i] == b[0];
        if a[0] != b[0] {
            assert(j > 0 && i > 0);
            assert(lt(b[0], b[j]));
            assert(lt(a[0], a[i]));
        }
        lemma_sorted_tail_set(a, lt);
        lemma_sorted_tail_set(b, lt);
        assert(sorted_by(a.drop_first(), lt)) by {
            assert forall|x: int, y: int| 0 <= x < y < a.drop_first().len() implies #[trigger] lt(a.drop_first()[x], a.drop_first()[y]) by {
                assert(lt(a[x + 1], a[y + 1]));
            }
        }
        assert(sorted_by(b.drop_first(), lt)) by {
            assert forall|x: int, y: int| 0 <= x < y < b.drop_first().len() implies #[trigger] lt(b.drop_first()[x], b.drop_first()[y]) by {
                assert(lt(b[x + 1], b[y + 1]));
            }
        }
        lemma_sorted_unique(a.drop_first(), b.drop_first(), lt);
        assert(a =~= seq![a[0]] + a.drop_first());
        assert(b =~= seq![b[0]] + b.drop_first());
    }
}

} // verus!
