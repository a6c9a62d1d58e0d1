use mkwebfont::character_set::CharacterSet;
use mkwebfont::gf_splitter::{default_tuning, GfSubsetSplitter, SplitterState};
use mkwebfont::subset_data::{WebfontData, WebfontSubset, WebfontSubsetGroup};
use roaring::RoaringBitmap;
use std::sync::Arc;

fn bitmap(values: impl IntoIterator<Item = u32>) -> RoaringBitmap {
    let mut b = RoaringBitmap::new();
    for v in values {
        b.insert(v);
    }
    b
}

fn set(values: impl IntoIterator<Item = u32>) -> CharacterSet {
    let mut s = CharacterSet::new();
    for v in values {
        s.insert(v);
    }
    s
}

fn subset(name: &str, values: impl IntoIterator<Item = u32>) -> Arc<WebfontSubset> {
    Arc::new(WebfontSubset { name: name.to_string(), map: bitmap(values) })
}

fn data(subsets: Vec<Arc<WebfontSubset>>, groups: Vec<Arc<WebfontSubsetGroup>>) -> WebfontData {
    let mut all = subsets.clone();
    for g in &groups {
        all.extend(g.subsets.iter().cloned());
    }
    WebfontData { subsets, groups, all }
}

fn made(st: &SplitterState) -> Vec<(String, Vec<u32>)> {
    st.subsets_made().iter().map(|(n, b)| (n.clone(), b.iter().collect())).collect()
}

fn latin() -> std::ops::RangeInclusive<u32> {
    97..=122
}

fn greek() -> std::ops::RangeInclusive<u32> {
    0x3B1..=0x3C9
}

fn font() -> Vec<u32> {
    let mut v: Vec<u32> = latin().collect();
    v.extend([0x3B1, 0x3B2, 0x3B3]);
    v.extend(0x4E00..0x4E06);
    v
}

#[test]
fn default_thresholds() {
    let t = default_tuning();
    assert_eq!(t.reject_subset_threshold, 20);
    assert_eq!(t.accept_subset_count_threshold, 20);
    assert_eq!(t.accept_subset_ratio, (1, 10));
    assert_eq!(t.accept_group_ratio, (1, 4));
    assert_eq!(t.high_priority_ratio, (1, 4));
    assert_eq!(t.high_priority_subsets, vec!["latin".to_string(), "latin-ext".to_string()]);
    assert_eq!(t.residual_class_max_size, 200);
}

#[test]
fn high_priority_then_subsets_then_residual() {
    let d = data(vec![subset("latin", latin()), subset("greek", greek())], vec![]);
    let all = set(font());
    let mut st = GfSubsetSplitter.start(bitmap(font()), &all, &CharacterSet::new());
    st.check_high_priority(&d);
    assert_eq!(made(&st), vec![("latin".to_string(), latin().collect())]);
    // greek: 3 of its 25 new code points are in the font, a share above 1/10, but too few
    // to keep: it is handled and rejected.
    assert!(st.can_select_next(&d));
    let next = st.select_next_subset(&d).unwrap();
    assert_eq!(next.name, "greek");
    st.do_subset(&next.name, &next.map, false);
    assert_eq!(st.subsets_made().len(), 1);
    assert!(st.select_next_subset(&d).is_none());
    assert_eq!(st.left_over().len(), 9);
    st.split_residual(&d);
    let mut rest: Vec<u32> = vec![0x3B1, 0x3B2, 0x3B3];
    rest.extend(0x4E00..0x4E06);
    assert_eq!(made(&st), vec![("latin".to_string(), latin().collect()), ("misc1".to_string(), rest)]);
}

#[test]
fn preload_goes_with_the_first_subset() {
    let d = data(vec![subset("latin", latin())], vec![]);
    let all = set(font());
    let mut st = GfSubsetSplitter.start(bitmap(font()), &all, &set([0x4E00]));
    st.check_high_priority(&d);
    let mut first: Vec<u32> = latin().collect();
    first.push(0x4E00);
    assert_eq!(made(&st), vec![("latin+pl".to_string(), first)]);
    assert_eq!(st.left_over().len(), 3 + 5);
}

#[test]
fn unused_code_points_count_as_served() {
    let d = data(vec![subset("latin", latin())], vec![]);
    let used = set(latin());
    let st = GfSubsetSplitter.start(bitmap(font()), &used, &CharacterSet::new());
    assert_eq!(st.left_over().iter().collect::<Vec<u32>>(), latin().collect::<Vec<u32>>());
    assert_eq!(st.subset_counts(&d.subsets[0].map), (26, 26));
}

#[test]
fn groups_are_handled_once() {
    let g = Arc::new(WebfontSubsetGroup {
        name: "cjk".to_string(),
        subsets: vec![subset("cjk-a", 0x4E00..0x4E20), subset("cjk-b", 0x4E20..0x4E40)],
    });
    let d = data(vec![], vec![g.clone()]);
    let avail: Vec<u32> = (0x4E00..0x4E40).collect();
    let mut st = GfSubsetSplitter.start(bitmap(avail.clone()), &set(avail), &CharacterSet::new());
    assert_eq!(st.groups_done_count(), 0);
    assert!(!st.group_done(&"cjk".to_string()));
    st.do_subset_group(&g);
    assert!(st.group_done(&"cjk".to_string()));
    assert_eq!(st.groups_done_count(), 1);
    assert_eq!(st.subsets_made().len(), 2);
    st.do_subset_group(&g);
    assert_eq!(st.subsets_made().len(), 2);
    assert_eq!(st.subsets_done_count(), 2);
    assert_eq!(st.group_threshold(), (1, 4));
    assert!(st.left_over().is_empty());
    assert!(d.groups.len() == 1);
}

#[test]
fn large_left_over_blocks_are_split_by_block_and_size() {
    // 450 CJK code points and 3 Greek ones, no subsets: chunks of at most 200 by block.
    let d = data(vec![], vec![]);
    let mut avail: Vec<u32> = vec![0x3B1, 0x3B2, 0x3B3];
    avail.extend(0x4E00..0x4E00 + 450);
    let mut st = GfSubsetSplitter.start(bitmap(avail.clone()), &set(avail), &CharacterSet::new());
    st.split_residual(&d);
    let m = made(&st);
    let names: Vec<&str> = m.iter().map(|x| x.0.as_str()).collect();
    let sizes: Vec<usize> = m.iter().map(|x| x.1.len()).collect();
    // Two full chunks first, then the Greek chunk packed with the last 50 CJK code points.
    assert_eq!(names, vec!["misc1", "misc2", "misc3"]);
    assert_eq!(sizes, vec![200, 200, 53]);
}

#[test]
fn sweep_takes_subsets_that_meet_enough() {
    // A subset meeting more than 10 of the left over code points becomes its own block.
    let d = data(vec![subset("big", 0x4E00..0x4E0C), subset("small", 0x4E0C..0x4E10)], vec![]);
    let avail: Vec<u32> = (0x4E00..0x4E10).collect();
    let mut st = GfSubsetSplitter.start(bitmap(avail.clone()), &set(avail), &CharacterSet::new());
    st.split_residual(&d);
    let m = made(&st);
    assert_eq!(m.len(), 1);
    assert_eq!(m[0].0, "misc1");
    assert_eq!(m[0].1.len(), 16);
}

#[test]
fn runs_of_one_block() {
    let runs = mkwebfont::gf_splitter::split_to_blocks(&bitmap([0x41, 0x42, 0x3B1, 0x4E00, 0x4E01]));
    let runs: Vec<Vec<u32>> = runs.iter().map(|b| b.iter().collect()).collect();
    assert_eq!(runs, vec![vec![0x41, 0x42], vec![0x3B1], vec![0x4E00, 0x4E01]]);
}

#[test]
fn residual_blocks_take_what_fits() {
    let mut residual = vec![bitmap(0x100..0x103), bitmap(0x4E00..0x4E00 + 250), bitmap(0x200..0x205)];
    let first = mkwebfont::gf_splitter::generate_residual_block(&mut residual, 200);
    assert_eq!(first.len(), 8);
    assert_eq!(residual.len(), 1);
    let second = mkwebfont::gf_splitter::generate_residual_block(&mut residual, 200);
    assert_eq!(second.iter().collect::<Vec<u32>>(), (0x4E00..0x4E00 + 200).collect::<Vec<u32>>());
    assert_eq!(residual[0].len(), 50);
    let third = mkwebfont::gf_splitter::generate_residual_block(&mut residual, 200);
    assert_eq!(third.len(), 50);
    assert!(residual.is_empty());
}

#[test]
fn residual_blocks_by_block_name() {
    let mut values = vec![0x41, 0x42];
    values.extend(0x4E00..0x4E00 + 250);
    let blocks = mkwebfont::gf_splitter::residual_blocks_by_name(&bitmap(values), 200);
    let summary: Vec<(String, u64)> = blocks.iter().map(|(n, b)| (n.clone(), b.len())).collect();
    assert_eq!(summary, vec![("misc0".to_string(), 2), ("misc1".to_string(), 200), ("misc2".to_string(), 50)]);
}
