//! The predefined subsets that fonts are split along: each a named set of code points, some of
//! them gathered into groups.
use vstd::prelude::*;
use std::sync::Arc;
use roaring::RoaringBitmap;
use crate::roaring_bitmap::{roaring_contents, roaring_new, roaring_insert};
use crate::text::char_code;

verus! {

/// A subset as written in a data file: its name, the group it belongs to if any, and its
/// characters.
pub struct RawSubset {
    pub name: String,
    pub group: Option<String>,
    pub chars: String,
}

/// A subset: its name and its code points.
pub struct WebfontSubset {
    pub name: String,
    pub map: RoaringBitmap,
}

/// A group of subsets.
pub struct WebfontSubsetGroup {
    pub name: String,
    pub subsets: Vec<Arc<WebfontSubset>>,
}

/// The subsets that belong to no group, the groups, and every subset for lookup by name.
pub struct WebfontData {
    pub subsets: Vec<Arc<WebfontSubset>>,
    pub groups: Vec<Arc<WebfontSubsetGroup>>,
    /// Every subset, grouped or not, in the order of the data file.
    pub all: Vec<Arc<WebfontSubset>>,
}

/// The code points of the characters of `s`.
pub open spec fn chars_set(s: Seq<char>) -> Set<u32> {
    Set::new(|x: u32| exists|i: int| 0 <= i < s.len() && s[i] as u32 == x)
}

/// A subset as its name and code points.
pub open spec fn subset_view(s: Arc<WebfontSubset>) -> (Seq<char>, Set<u32>) {
    (s.name@, roaring_contents(s.map))
}

/// A subset as written in a data file, once read: its name and code points.
pub open spec fn raw_view(r: RawSubset) -> (Seq<char>, Set<u32>) {
    (r.name@, chars_set(r.chars@))
}

/// The group that subsets named `name` belong to: that of the last subset of that name that
/// names a group.
pub open spec fn group_of(raws: Seq<RawSubset>, name: Seq<char>) -> Option<Seq<char>>
    decreases raws.len(),
{
    if raws.len() == 0 {
        None
    } else if raws.last().name@ == name && raws.last().group is Some {
        Some(raws.last().group.unwrap()@)
    } else {
        group_of(raws.drop_last(), name)
    }
}

/// Picks, as read, the subsets of `raws` in no group.
pub open spec fn ungrouped(raws: Seq<RawSubset>) -> spec_fn(RawSubset) -> Option<(Seq<char>, Set<u32>)> {
    |r: RawSubset| if group_of(raws, r.name@) is None { Some(raw_view(r)) } else { None }
}

/// Picks, as read, the subsets of `raws` in the group `g`.
pub open spec fn grouped(raws: Seq<RawSubset>, g: Seq<char>) -> spec_fn(RawSubset) -> Option<(Seq<char>, Set<u32>)> {
    |r: RawSubset| if group_of(raws, r.name@) == Some(g) { Some(raw_view(r)) } else { None }
}

/// The groups that the subsets of `raws` belong to.
pub open spec fn group_names(raws: Seq<RawSubset>) -> Set<Seq<char>> {
    Set::new(|g: Seq<char>| exists|i: int| 0 <= i < raws.len() && group_of(raws, (#[trigger] raws[i]).name@) == Some(g))
}

/// The names of groups being gathered.
pub open spec fn entry_names(groups: Seq<(String, Vec<Arc<WebfontSubset>>)>) -> Seq<Seq<char>> {
    groups.map_values(|g: (String, Vec<Arc<WebfontSubset>>)| g.0@)
}

/// A subset with this name and the code points of these characters.
fn convert_subset(name: &str, chars: &str) -> (s: Arc<WebfontSubset>)
    ensures
        subset_view(s) == (name@, chars_set(chars@)),
{
    let mut bitmap = roaring_new();
    for ch in it: chars.chars()
        invariant
            it.seq() == chars@,
            roaring_contents(bitmap) == chars_set(chars@.take(it.index())),
    {
        let ghost k = it.index();
        let ghost before = roaring_contents(bitmap);
        roaring_insert(&mut bitmap, char_code(ch));
        proof {
            let p = chars@.take(k);
            let q = chars@.take(k + 1);
            assert(q =~= p.push(ch));
            assert forall|x: u32| #[trigger] chars_set(q).contains(x) == (chars_set(p).contains(x) || x == ch as u32) by {
                if chars_set(q).contains(x) {
                    let i = choose|i: int| 0 <= i < q.len() && q[i] as u32 == x;
                    if i < p.len() {
                        assert(p[i] == q[i]);
                    }
                }
                if chars_set(p).contains(x) {
                    let i = choose|i: int| 0 <= i < p.len() && p[i] as u32 == x;
                    assert(q[i] == p[i]);
                }
                if x == ch as u32 {
                    assert(q[k] == ch);
                }
            }
            assert(roaring_contents(bitmap) =~= chars_set(q));
        }
    }
    assert(chars@.take(chars@.len() as int) =~= chars@);
    Arc::new(WebfontSubset { name: name.to_string(), map: bitmap })
}

/// The group of the subsets named `name`.
fn find_group(raws: &[RawSubset], name: &String) -> (g: Option<String>)
    ensures
        match g {
            Some(s) => group_of(raws@, name@) == Some(s@),
            None => group_of(raws@, name@) is None,
        },
{
    let mut i: usize = raws.len();
    assert(raws@.take(i as int) =~= raws@);
    while i > 0
        invariant
            i <= raws@.len(),
            group_of(raws@, name@) == group_of(raws@.take(i as int), name@),
        decreases i,
    {
        let ghost p = raws@.take(i as int);
        assert(p.drop_last() =~= raws@.take(i - 1));
        assert(p.last() == raws@[i - 1]);
        let r = &raws[i - 1];
        if r.name == *name {
            match &r.group {
                Some(g) => {
                    return Some(g.clone());
                },
                None => {},
            }
        }
        i = i - 1;
    }
    assert(raws@.take(0) =~= Seq::<RawSubset>::empty());
    None
}

proof fn lemma_filter_map_push<T>(s: Seq<RawSubset>, x: RawSubset, f: spec_fn(RawSubset) -> Option<T>)
    ensures
        s.push(x).filter_map(f) == match f(x) {
            Some(y) => s.filter_map(f) + seq![y],
            None => s.filter_map(f),
        },
{
    assert(s.push(x).drop_last() =~= s);
}

proof fn lemma_filter_map_none<T>(s: Seq<RawSubset>, f: spec_fn(RawSubset) -> Option<T>)
    requires
        forall|i: int| 0 <= i < s.len() ==> f(#[trigger] s[i]) is None,
    ensures
        s.filter_map(f) == Seq::<T>::empty(),
    decreases s.len(),
{
    if s.len() > 0 {
        lemma_filter_map_none(s.drop_last(), f);
    }
}

impl WebfontData {
    /// The subset of this name: the last one of that name in the data file.
    pub fn by_name(&self, name: &str) -> (s: Option<Arc<WebfontSubset>>)
        ensures
            match s {
                Some(x) => x.name@ == name@ && exists|i: int| 0 <= i < self.all_view().len()
                    && self.all_view()[i] == subset_view(x)
                    && forall|j: int| i < j < self.all_view().len() ==> (#[trigger] self.all_view()[j]).0 != name@,
                None => forall|j: int| 0 <= j < self.all_view().len() ==> (#[trigger] self.all_view()[j]).0 != name@,
            },
    {
        let target = name.to_string();
        let mut i: usize = self.all.len();
        while i > 0
            invariant
                i <= self.all@.len(),
                target@ == name@,
                forall|j: int| i <= j < self.all@.len() ==> (#[trigger] self.all_view()[j]).0 != name@,
            decreases i,
        {
            if self.all[i - 1].name == target {
                let x = self.all[i - 1].clone();
                assert(self.all_view()[i - 1] == subset_view(x));
                return Some(x);
            }
            i = i - 1;
        }
        None
    }

    /// Every subset, in the order of the data file.
    pub open spec fn all_view(&self) -> Seq<(Seq<char>, Set<u32>)> {
        self.all@.map_values(|s: Arc<WebfontSubset>| subset_view(s))
    }
}

/// Reads the subsets of a data file. The subsets of a name that some subset gives a group go to
/// that group (the last such subset decides); the others stay ungrouped. Ungrouped subsets and
/// each group's subsets keep the order of the file; each group occurs once.
pub fn build_from_raw(subsets: &[RawSubset]) -> (data: WebfontData)
    ensures
        data.all_view() == subsets@.map_values(|r: RawSubset| raw_view(r)),
        data.subsets@.map_values(|s: Arc<WebfontSubset>| subset_view(s)) == subsets@.filter_map(ungrouped(subsets@)),
        data.groups@.map_values(|g: Arc<WebfontSubsetGroup>| g.name@).no_duplicates(),
        data.groups@.map_values(|g: Arc<WebfontSubsetGroup>| g.name@).to_set() == group_names(subsets@),
        forall|j: int| 0 <= j < data.groups@.len() ==>
            (#[trigger] data.groups@[j]).subsets@.map_values(|s: Arc<WebfontSubset>| subset_view(s))
                == subsets@.filter_map(grouped(subsets@, data.groups@[j].name@)),
{
    let ghost raws = subsets@;
    let mut all: Vec<Arc<WebfontSubset>> = Vec::new();
    let mut plain: Vec<Arc<WebfontSubset>> = Vec::new();
    let mut groups: Vec<(String, Vec<Arc<WebfontSubset>>)> = Vec::new();
    proof {
        assert(raws.take(0) =~= Seq::<RawSubset>::empty());
    }
    let mut i: usize = 0;
    while i < subsets.len()
        invariant
            i <= raws.len(),
            raws == subsets@,
            all@.map_values(|s: Arc<WebfontSubset>| subset_view(s)) == raws.take(i as int).map_values(|r: RawSubset| raw_view(r)),
            plain@.map_values(|s: Arc<WebfontSubset>| subset_view(s)) == raws.take(i as int).filter_map(ungrouped(raws)),
            entry_names(groups@).no_duplicates(),
            forall|g: Seq<char>| #[trigger] entry_names(groups@).contains(g)
                <==> exists|q: int| 0 <= q < i && group_of(raws, (#[trigger] raws[q]).name@) == Some(g),
            forall|j: int| 0 <= j < groups@.len() ==>
                (#[trigger] groups@[j]).1@.map_values(|s: Arc<WebfontSubset>| subset_view(s))
                    == raws.take(i as int).filter_map(grouped(raws, groups@[j].0@)),
        decreases raws.len() - i,
    {
        let r = &subsets[i];
        let ghost prefix = raws.take(i as int);
        assert(raws.take(i + 1) =~= prefix.push(*r));
        let s = convert_subset(r.name.as_str(), r.chars.as_str());
        let ghost sv = subset_view(s);
        assert(sv == raw_view(*r));
        all.push(s.clone());
        proof {
            assert(prefix.push(*r).map_values(|r: RawSubset| raw_view(r)) =~= prefix.map_values(|r: RawSubset| raw_view(r)).push(raw_view(*r)));
            lemma_filter_map_push(prefix, *r, ungrouped(raws));
        }
        let ghost gnames = entry_names(groups@);
        let ghost before = groups@;
        match find_group(subsets, &r.name) {
            None => {
                plain.push(s);
                proof {
                    assert forall|j: int| 0 <= j < groups@.len() implies
                        (#[trigger] groups@[j]).1@.map_values(|s: Arc<WebfontSubset>| subset_view(s))
                            == raws.take(i + 1).filter_map(grouped(raws, groups@[j].0@)) by {
                        lemma_filter_map_push(prefix, *r, grouped(raws, groups@[j].0@));
                    }
                    assert forall|g: Seq<char>| #[trigger] gnames.contains(g)
                        <==> exists|q: int| 0 <= q < i + 1 && group_of(raws, (#[trigger] raws[q]).name@) == Some(g) by {
                        if exists|q: int| 0 <= q < i + 1 && group_of(raws, (#[trigger] raws[q]).name@) == Some(g) {
                            let q = choose|q: int| 0 <= q < i + 1 && group_of(raws, (#[trigger] raws[q]).name@) == Some(g);
                            assert(q < i);
                        }
                    }
                }
            },
            Some(gname) => {
                let mut pos: usize = 0;
                while pos < groups.len()
                    invariant
                        pos <= groups@.len(),
                        gnames == entry_names(groups@),
                        forall|q: int| 0 <= q < pos ==> #[trigger] gnames[q] != gname@,
                    ensures
                        pos <= groups@.len(),
                        forall|q: int| 0 <= q < pos ==> #[trigger] gnames[q] != gname@,
                        pos < groups@.len() ==> gnames[pos as int] == gname@,
                    decreases groups@.len() - pos,
                {
                    if groups[pos].0 == gname {
                        break;
                    }
                    pos = pos + 1;
                }
                proof {
                    lemma_filter_map_push(prefix, *r, grouped(raws, gname@));
                    assert forall|j: int| 0 <= j < before.len() && before[j].0@ != gname@ implies
                        prefix.push(*r).filter_map(grouped(raws, before[j].0@)) == prefix.filter_map(grouped(raws, before[j].0@)) by {
                        lemma_filter_map_push(prefix, *r, grouped(raws, before[j].0@));
                    }
                }
                if pos < groups.len() {
                    let mut entry = groups.remove(pos);
                    let ghost e0 = entry;
                    entry.1.push(s);
                    groups.insert(pos, entry);
                    proof {
                        assert(groups@ =~= before.update(pos as int, entry));
                        assert(entry_names(groups@) =~= gnames);
                        assert forall|j: int| 0 <= j < groups@.len() implies
                            (#[trigger] groups@[j]).1@.map_values(|s: Arc<WebfontSubset>| subset_view(s))
                                == raws.take(i + 1).filter_map(grouped(raws, groups@[j].0@)) by {
                            if j == pos {
                                assert(entry.1@.map_values(|s: Arc<WebfontSubset>| subset_view(s))
                                    =~= e0.1@.map_values(|s: Arc<WebfontSubset>| subset_view(s)).push(sv));
                            } else {
                                assert(groups@[j] == before[j]);
                                assert(gnames[j] != gnames[pos as int]);
                            }
                        }
                        assert forall|g: Seq<char>| #[trigger] gnames.contains(g)
                            <==> exists|q: int| 0 <= q < i + 1 && group_of(raws, (#[trigger] raws[q]).name@) == Some(g) by {
                            if exists|q: int| 0 <= q < i + 1 && group_of(raws, (#[trigger] raws[q]).name@) == Some(g) {
                                let q = choose|q: int| 0 <= q < i + 1 && group_of(raws, (#[trigger] raws[q]).name@) == Some(g);
                                if q == i {
                                    assert(gnames[pos as int] == g);
                                }
                            }
                        }
                    }
                } else {
                    let mut members: Vec<Arc<WebfontSubset>> = Vec::new();
                    members.push(s);
                    groups.push((gname, members));
                    proof {
                        let g2 = entry_names(groups@);
                        assert(g2 =~= gnames.push(gname@));
                        assert(!gnames.contains(gname@));
                        assert(!(exists|q: int| 0 <= q < i && group_of(raws, (#[trigger] raws[q]).name@) == Some(gname@)));
                        assert forall|q: int| 0 <= q < prefix.len() implies grouped(raws, gname@)(#[trigger] prefix[q]) is None by {
                            assert(prefix[q] == raws[q]);
                        }
                        lemma_filter_map_none(prefix, grouped(raws, gname@));
                        assert forall|j: int| 0 <= j < groups@.len() implies
                            (#[trigger] groups@[j]).1@.map_values(|s: Arc<WebfontSubset>| subset_view(s))
                                == raws.take(i + 1).filter_map(grouped(raws, groups@[j].0@)) by {
                            if j < before.len() {
                                assert(groups@[j] == before[j]);
                                assert(gnames[j] != gname@);
                            } else {
                                assert(members@.map_values(|s: Arc<WebfontSubset>| subset_view(s)) =~= seq![sv]);
                            }
                        }
                        assert forall|g: Seq<char>| #[trigger] g2.contains(g)
                            <==> exists|q: int| 0 <= q < i + 1 && group_of(raws, (#[trigger] raws[q]).name@) == Some(g) by {
                            crate::sort::lemma_push_contains(gnames, gname@, g);
                            if exists|q: int| 0 <= q < i + 1 && group_of(raws, (#[trigger] raws[q]).name@) == Some(g) {
                                let q = choose|q: int| 0 <= q < i + 1 && group_of(raws, (#[trigger] raws[q]).name@) == Some(g);
                            }
                            if g == gname@ {
                                assert(group_of(raws, raws[i as int].name@) == Some(g));
                            }
                        }
                    }
                }
            },
        }
        i = i + 1;
    }
    proof {
        assert(raws.take(raws.len() as int) =~= raws);
    }
    let mut group_list: Vec<Arc<WebfontSubsetGroup>> = Vec::new();
    let ghost gsrc = groups@;
    for g in it: groups.into_iter()
        invariant
            it.seq() == gsrc,
            group_list@.len() == it.index(),
            forall|j: int| 0 <= j < group_list@.len() ==> {
                &&& (#[trigger] group_list@[j]).name@ == gsrc[j].0@
                &&& group_list@[j].subsets@ == gsrc[j].1@
            },
    {
        group_list.push(Arc::new(WebfontSubsetGroup { name: g.0, subsets: g.1 }));
    }
    let data = WebfontData { subsets: plain, groups: group_list, all };
    proof {
        assert(data.groups@.map_values(|g: Arc<WebfontSubsetGroup>| g.name@)
            =~= entry_names(gsrc));
        assert forall|g: Seq<char>| entry_names(gsrc).to_set().contains(g)
            == group_names(raws).contains(g) by {}
        assert(entry_names(gsrc).to_set() =~= group_names(raws));
    }
    data
}

/// Reads a table of subsets (name, characters), none of them in a group.
pub fn build_from_table(table: Vec<(String, String)>) -> (data: WebfontData)
    ensures
        data.all_view() == table@.map_values(|e: (String, String)| (e.0@, chars_set(e.1@))),
        data.subsets@.map_values(|s: Arc<WebfontSubset>| subset_view(s)) == data.all_view(),
        data.groups@.len() == 0,
{
    let mut subsets: Vec<Arc<WebfontSubset>> = Vec::new();
    let mut all: Vec<Arc<WebfontSubset>> = Vec::new();
    let ghost want = table@.map_values(|e: (String, String)| (e.0@, chars_set(e.1@)));
    let mut i: usize = 0;
    while i < table.len()
        invariant
            i <= table@.len(),
            want == table@.map_values(|e: (String, String)| (e.0@, chars_set(e.1@))),
            subsets@.map_values(|s: Arc<WebfontSubset>| subset_view(s)) == want.take(i as int),
            all@.map_values(|s: Arc<WebfontSubset>| subset_view(s)) == want.take(i as int),
        decreases table@.len() - i,
    {
        let ghost prev = subsets@;
        let ghost prev_all = all@;
        let e = &table[i];
        let s = convert_subset(e.0.as_str(), e.1.as_str());
        assert(subset_view(s) == want[i as int]);
        all.push(s.clone());
        subsets.push(s);
        assert(want.take(i + 1) =~= want.take(i as int).push(want[i as int]));
        assert(subsets@.map_values(|s: Arc<WebfontSubset>| subset_view(s))
            =~= prev.map_values(|s: Arc<WebfontSubset>| subset_view(s)).push(subset_view(s)));
        assert(all@.map_values(|s: Arc<WebfontSubset>| subset_view(s))
            =~= prev_all.map_values(|s: Arc<WebfontSubset>| subset_view(s)).push(subset_view(s)));
        i = i + 1;
    }
    assert(want.take(want.len() as int) =~= want);
    WebfontData { subsets, groups: Vec::new(), all }
}

} // verus!
