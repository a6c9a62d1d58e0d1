//! Relative paths between canonical paths, written with forward slashes.
use vstd::prelude::*;
use crate::text::{chars_of, replace_char, replace_char_in, string_from_chars, push_str};

verus! {

/// A path that is not below the path it was taken relative to.
#[derive(Debug)]
pub struct NotAParent {
    pub parent: String,
    pub child: String,
}

/// A path's text with its separators written as `/` (backslashes replaced).
pub fn path_to_string(path: &str) -> (s: String)
    ensures
        s@ == replace_char(path@, '\\', '/'),
{
    let chars = chars_of(path);
    string_from_chars(&replace_char_in(&chars, '\\', '/'))
}

/// The part of `child` after `parent`, when `child` starts with `parent`; both are canonical
/// paths written with forward slashes.
pub fn get_relative_fragment(parent: &str, child: &str) -> (r: Result<String, NotAParent>)
    ensures
        r is Ok <==> child@.len() >= parent@.len() && child@.take(parent@.len() as int) == parent@,
        r matches Ok(s) ==> s@ == child@.skip(parent@.len() as int),
        r matches Err(e) ==> e.parent@ == parent@ && e.child@ == child@,
{
    let p = chars_of(parent);
    let c = chars_of(child);
    if c.len() < p.len() {
        return Err(NotAParent { parent: parent.to_owned(), child: child.to_owned() });
    }
    let mut i: usize = 0;
    while i < p.len()
        invariant
            i <= p@.len(),
            p@.len() <= c@.len(),
            p@ == parent@,
            c@ == child@,
            forall|k: int| 0 <= k < i ==> p@[k] == c@[k],
        decreases p@.len() - i,
    {
        if p[i] != c[i] {
            assert(c@.take(p@.len() as int)[i as int] != p@[i as int]);
            assert(c@.take(p@.len() as int) != p@);
            assert(child@.take(parent@.len() as int) != parent@);
            return Err(NotAParent { parent: parent.to_owned(), child: child.to_owned() });
        }
        i = i + 1;
    }
    assert(c@.take(p@.len() as int) =~= p@);
    let mut out: Vec<char> = Vec::new();
    let mut k: usize = p.len();
    while k < c.len()
        invariant
            p@.len() <= k <= c@.len(),
            p@ == parent@,
            c@ == child@,
            out@ == c@.subrange(p@.len() as int, k as int),
        decreases c@.len() - k,
    {
        out.push(c[k]);
        assert(c@.subrange(p@.len() as int, k + 1) == c@.subrange(p@.len() as int, k as int).push(c@[k as int]));
        k = k + 1;
    }
    assert(out@ =~= c@.skip(p@.len() as int));
    Ok(string_from_chars(&out))
}

/// The text of an absolute path given by its components below the root (`/` for the root).
pub open spec fn path_text(comps: Seq<Seq<char>>) -> Seq<char>
    decreases comps.len(),
{
    if comps.len() == 0 {
        seq!['/']
    } else if comps.len() == 1 {
        seq!['/'] + comps[0]
    } else {
        path_text(comps.drop_last()) + seq!['/'] + comps.last()
    }
}

/// `n` times `../`.
pub open spec fn up_dirs(n: nat) -> Seq<char>
    decreases n,
{
    if n == 0 {
        Seq::empty()
    } else {
        up_dirs((n - 1) as nat) + seq!['.', '.', '/']
    }
}

/// The nearest ancestor of `root` (counting from `root.take(k)` upwards) that is also an
/// ancestor of `target`, by the number of its components.
pub open spec fn common_ancestor(root: Seq<Seq<char>>, target: Seq<Seq<char>>, k: nat) -> nat
    decreases k,
{
    if k == 0 {
        0
    } else if k <= target.len() && root.take(k as int) == target.take(k as int) {
        k
    } else {
        common_ancestor(root, target, (k - 1) as nat)
    }
}

/// The text of the ancestor `comps.take(k)` is a prefix of the text of `comps`.
proof fn lemma_path_text_prefix(comps: Seq<Seq<char>>, k: nat)
    requires
        k <= comps.len(),
    ensures
        path_text(comps.take(k as int)).len() <= path_text(comps).len(),
        path_text(comps).take(path_text(comps.take(k as int)).len() as int) == path_text(comps.take(k as int)),
    decreases comps.len(),
{
    if k == comps.len() {
        assert(comps.take(k as int) =~= comps);
    } else {
        let p = comps.drop_last();
        lemma_path_text_prefix(p, k);
        assert(p.take(k as int) =~= comps.take(k as int));
        if comps.len() == 1 {
            assert(comps.take(0) =~= Seq::<Seq<char>>::empty());
            assert(path_text(comps).take(1) =~= seq!['/']);
        } else {
            let t = path_text(comps.take(k as int));
            assert(path_text(comps).take(t.len() as int) =~= path_text(p).take(t.len() as int));
        }
    }
}

/// The text of a path given by its components below the root.
fn path_text_of(comps: &Vec<String>) -> (s: Vec<char>)
    ensures
        s@ == path_text(comps@.map_values(|c: String| c@)),
{
    let ghost cv = comps@.map_values(|c: String| c@);
    let mut out: Vec<char> = Vec::new();
    out.push('/');
    if comps.len() == 0 {
        assert(out@ =~= seq!['/']);
        return out;
    }
    push_str(&mut out, comps[0].as_str());
    assert(cv.take(1).drop_last() =~= Seq::<Seq<char>>::empty());
    assert(out@ =~= path_text(cv.take(1)));
    let mut i: usize = 1;
    while i < comps.len()
        invariant
            1 <= i <= comps@.len(),
            cv == comps@.map_values(|c: String| c@),
            out@ == path_text(cv.take(i as int)),
        decreases comps@.len() - i,
    {
        out.push('/');
        push_str(&mut out, comps[i].as_str());
        assert(cv.take(i + 1).drop_last() =~= cv.take(i as int));
        assert(out@ =~= path_text(cv.take(i + 1)));
        i = i + 1;
    }
    assert(cv.take(comps@.len() as int) =~= cv);
    out
}

/// The root has no parent, so no ancestor of it is shared with the target.
pub struct NoCommonParent {
    pub root: String,
    pub target: String,
}

/// How to reach `target` from the parent of `root`: a `../` for each ancestor of `root` above
/// its parent that is not an ancestor of `target`, then the part of `target` below the nearest
/// shared ancestor. Both are canonical absolute paths, given by their components below the
/// filesystem root. Fails for the filesystem root, which has no parent.
pub fn get_relative_from(root: &Vec<String>, target: &Vec<String>) -> (r: Result<String, NoCommonParent>)
    ensures
        ({
            let rv = root@.map_values(|c: String| c@);
            let tv = target@.map_values(|c: String| c@);
            match r {
                Ok(s) => rv.len() > 0 && {
                    let k = common_ancestor(rv, tv, (rv.len() - 1) as nat);
                    s@ == up_dirs((rv.len() - 1 - k) as nat)
                        + path_text(tv).skip(path_text(rv.take(k as int)).len() as int)
                },
                Err(e) => rv.len() == 0 && e.root@ == path_text(rv) && e.target@ == path_text(tv),
            }
        }),
{
    let ghost rv = root@.map_values(|c: String| c@);
    let ghost tv = target@.map_values(|c: String| c@);
    let target_text = path_text_of(target);
    if root.len() == 0 {
        let root_text = path_text_of(root);
        return Err(NoCommonParent {
            root: string_from_chars(&root_text),
            target: string_from_chars(&target_text),
        });
    }
    let mut k: usize = root.len() - 1;
    let mut up: Vec<char> = Vec::new();
    loop
        invariant
            k < rv.len(),
            rv == root@.map_values(|c: String| c@),
            tv == target@.map_values(|c: String| c@),
            target_text@ == path_text(tv),
            common_ancestor(rv, tv, (rv.len() - 1) as nat) == common_ancestor(rv, tv, k as nat),
            up@ == up_dirs((rv.len() - 1 - k) as nat),
        decreases k,
    {
        let mut shared = k <= target.len();
        let mut j: usize = 0;
        while shared && j < k
            invariant
                j <= k < rv.len(),
                rv == root@.map_values(|c: String| c@),
                tv == target@.map_values(|c: String| c@),
                shared ==> k <= tv.len(),
                shared ==> forall|q: int| 0 <= q < j ==> rv[q] == tv[q],
                !shared ==> !(k <= tv.len() && rv.take(k as int) == tv.take(k as int)),
            decreases k - j,
        {
            if root[j] != target[j] {
                assert(rv[j as int] == root@[j as int]@);
                assert(tv[j as int] == target@[j as int]@);
                assert(rv.take(k as int)[j as int] != tv.take(k as int)[j as int]);
                shared = false;
            } else {
                assert(rv[j as int] == tv[j as int]);
            }
            j = j + 1;
        }
        if shared {
            assert(rv.take(k as int) =~= tv.take(k as int));
        }
        if shared || k == 0 {
            let ancestor: Vec<String> = vec_prefix(root, k);
            assert(ancestor@.map_values(|c: String| c@) =~= rv.take(k as int));
            let ancestor_text = path_text_of(&ancestor);
            proof {
                if k > 0 {
                    assert(rv.take(k as int) == tv.take(k as int));
                    lemma_path_text_prefix(tv, k as nat);
                } else {
                    lemma_path_text_prefix(tv, 0);
                    assert(tv.take(0) =~= rv.take(0));
                }
            }
            let a = string_from_chars(&ancestor_text);
            let t = string_from_chars(&target_text);
            match get_relative_fragment(a.as_str(), t.as_str()) {
                Ok(fragment) => {
                    let mut out = up;
                    push_str(&mut out, fragment.as_str());
                    return Ok(string_from_chars(&out));
                },
                Err(_) => {
                    assert(false);
                    return Err(NoCommonParent { root: a, target: t });
                },
            }
        }
        let ghost before = up@;
        up.push('.');
        up.push('.');
        up.push('/');
        assert(up@ =~= up_dirs((rv.len() - 1 - (k - 1)) as nat));
        k = k - 1;
    }
}

/// The first `k` components.
fn vec_prefix(v: &Vec<String>, k: usize) -> (r: Vec<String>)
    requires
        k <= v@.len(),
    ensures
        r@.map_values(|c: String| c@) == v@.map_values(|c: String| c@).take(k as int),
{
    let mut r: Vec<String> = Vec::new();
    let mut i: usize = 0;
    while i < k
        invariant
            i <= k <= v@.len(),
            r@.map_values(|c: String| c@) == v@.map_values(|c: String| c@).take(i as int),
        decreases k - i,
    {
        let ghost before = r@;
        let c = v[i].clone();
        r.push(c);
        assert(r@ == before.push(c));
        assert(c@ == v@[i as int]@);
        assert(r@.map_values(|c: String| c@) =~= before.map_values(|c: String| c@).push(c@));
        assert(r@.map_values(|c: String| c@) =~= v@.map_values(|c: String| c@).take(i + 1));
        i = i + 1;
    }
    r
}


/// The text of a requested path before its first `?` (the query is not part of the file name).
pub open spec fn before_query(p: Seq<char>) -> Seq<char>
    decreases p.len(),
{
    if p.len() == 0 || p[0] == '?' {
        Seq::empty()
    } else {
        seq![p[0]] + before_query(p.drop_first())
    }
}

/// A path with its leading slashes removed.
pub open spec fn trim_leading_slashes(p: Seq<char>) -> Seq<char>
    decreases p.len(),
{
    if p.len() > 0 && p[0] == '/' {
        trim_leading_slashes(p.drop_first())
    } else {
        p
    }
}

/// Where a path requested from a page is looked up. The query (from the first `?` on) is cut
/// off. A path that starts with `/`, or any path when the page gives no directory of its own,
/// is taken from the webroot, with its leading slashes removed (the first result is `true`);
/// any other path is taken from the page's directory as it is.
pub fn request_path(path: &str, has_rela_root: bool) -> (r: (bool, String))
    ensures
        r.0 == (!has_rela_root || (before_query(path@).len() > 0 && before_query(path@)[0] == '/')),
        r.0 ==> r.1@ == trim_leading_slashes(before_query(path@)),
        !r.0 ==> r.1@ == before_query(path@),
{
    let chars = chars_of(path);
    let ghost p = path@;
    let mut q: Vec<char> = Vec::new();
    let mut i: usize = 0;
    assert(p.skip(0) =~= p);
    assert(p.take(0) + before_query(p) =~= before_query(p));
    while i < chars.len() && chars[i] != '?'
        invariant
            i <= chars@.len(),
            chars@ == p,
            q@ == p.take(i as int),
            before_query(p) == p.take(i as int) + before_query(p.skip(i as int)),
        decreases chars@.len() - i,
    {
        let c = chars[i];
        proof {
            let rest = p.skip(i as int);
            assert(rest[0] == c);
            assert(rest.drop_first() =~= p.skip(i + 1));
            assert(p.take(i + 1) =~= p.take(i as int).push(c));
            assert(before_query(rest) == seq![c] + before_query(p.skip(i + 1)));
            assert(p.take(i as int) + (seq![c] + before_query(p.skip(i + 1)))
                =~= p.take(i + 1) + before_query(p.skip(i + 1)));
        }
        q.push(c);
        i = i + 1;
    }
    proof {
        assert(before_query(p.skip(i as int)) =~= Seq::<char>::empty());
        assert(before_query(p) =~= q@);
    }
    let from_root = !has_rela_root || (q.len() > 0 && q[0] == '/');
    if !from_root {
        return (false, string_from_chars(&q));
    }
    let ghost qv = q@;
    let mut k: usize = 0;
    assert(qv.skip(0) =~= qv);
    while k < q.len() && q[k] == '/'
        invariant
            k <= qv.len(),
            q@ == qv,
            trim_leading_slashes(qv.skip(k as int)) == trim_leading_slashes(qv),
        decreases qv.len() - k,
    {
        assert(qv.skip(k as int).drop_first() =~= qv.skip(k + 1));
        k = k + 1;
    }
    let mut out: Vec<char> = Vec::new();
    let mut j: usize = k;
    while j < q.len()
        invariant
            k <= j <= qv.len(),
            q@ == qv,
            out@ == qv.subrange(k as int, j as int),
        decreases qv.len() - j,
    {
        out.push(q[j]);
        assert(qv.subrange(k as int, j + 1) =~= qv.subrange(k as int, j as int).push(qv[j as int]));
        j = j + 1;
    }
    proof {
        assert(out@ =~= qv.skip(k as int));
        assert(trim_leading_slashes(qv.skip(k as int)) == qv.skip(k as int));
    }
    (true, string_from_chars(&out))
}

/// `path` lies in `root` or below it, component by component (as `Path::starts_with` compares).
pub fn is_child_of(root: &Vec<String>, path: &Vec<String>) -> (r: bool)
    ensures
        r == (root@.len() <= path@.len() && path@.map_values(|c: String| c@).take(root@.len() as int)
            == root@.map_values(|c: String| c@)),
{
    let ghost rv = root@.map_values(|c: String| c@);
    let ghost pv = path@.map_values(|c: String| c@);
    if root.len() > path.len() {
        return false;
    }
    let mut i: usize = 0;
    while i < root.len()
        invariant
            i <= root@.len() <= path@.len(),
            rv == root@.map_values(|c: String| c@),
            pv == path@.map_values(|c: String| c@),
            forall|q: int| 0 <= q < i ==> rv[q] == pv[q],
        decreases root@.len() - i,
    {
        if root[i] != path[i] {
            assert(pv.take(rv.len() as int)[i as int] != rv[i as int]);
            return false;
        }
        assert(rv[i as int] == pv[i as int]);
        i = i + 1;
    }
    assert(pv.take(rv.len() as int) =~= rv);
    true
}

} // verus!
