use mkwebfont::bitset_list::{build as build_legacy, BitsetListBuilder};
use mkwebfont::character_set::CharacterSet;
use mkwebfont::model::bitset_list::{build, BitsetList, BitsetSectionBuilder};
use roaring::RoaringBitmap;

fn sorted(s: &CharacterSet) -> Vec<u32> {
    let mut it = s.iter();
    let mut out = Vec::new();
    while let Some(x) = it.next() {
        out.push(x);
    }
    out.sort();
    out
}

#[test]
fn first_sample_of_a_section_is_empty() {
    // every mark starts at 0, the first sample's generation
    let mut b = BitsetSectionBuilder::new("web");
    b.push_sample("abc");
    b.push_sample("abca");
    let list = build(vec![b]);
    let section = &list.sections()[0];
    assert_eq!(section.source(), "web");
    assert_eq!(section.len(), 2);
    assert!(section.get(0).is_empty());
    assert_eq!(sorted(&section.get(1)), vec![97, 98, 99]);
}

#[test]
fn filtered_characters_are_left_out() {
    let mut b = BitsetSectionBuilder::new("s");
    b.filter_chars(|c| c != 'b');
    b.push_sample("");
    b.push_sample("abc");
    let list = build(vec![b]);
    let samples = list.iter();
    assert_eq!(samples.len(), 2);
    assert_eq!(sorted(&samples[1]), vec![97, 99]);
}

#[test]
fn list_length_counts_all_samples() {
    let mut a = BitsetSectionBuilder::new("a");
    a.push_sample("x");
    a.push_sample("y");
    let mut b = BitsetSectionBuilder::new("b");
    b.push_sample("z");
    let list = build(vec![a, b]);
    assert_eq!(list.len(), 3);
    assert_eq!(list.iter().len(), 3);
}

#[test]
fn split_deals_sections_round_robin() {
    let builders: Vec<_> = ["s0", "s1", "s2", "s3", "s4"].iter().map(|n| {
        let mut b = BitsetSectionBuilder::new(n);
        b.push_sample("q");
        b
    }).collect();
    let list = build(builders);
    let parts = list.split(2);
    assert_eq!(parts.len(), 2);
    let names = |l: &BitsetList| l.sections().iter().map(|s| s.source().to_string()).collect::<Vec<_>>();
    assert_eq!(names(&parts[0]), vec!["s0", "s2", "s4"]);
    assert_eq!(names(&parts[1]), vec!["s1", "s3"]);
    assert_eq!(parts[0].len() + parts[1].len(), list.len());
}

#[test]
fn split_into_more_lists_than_sections() {
    let mut b = BitsetSectionBuilder::new("only");
    b.push_sample("a");
    let list = build(vec![b]);
    let parts = list.split(3);
    assert_eq!(parts.len(), 3);
    assert_eq!(parts[0].sections().len(), 1);
    assert!(parts[1].sections().is_empty());
    assert!(parts[2].sections().is_empty());
}

fn serialized(values: &[u32]) -> Vec<u8> {
    let mut b = RoaringBitmap::new();
    for &v in values {
        b.insert(v);
    }
    let mut out = Vec::new();
    b.serialize_into(&mut out).unwrap();
    out
}

#[test]
fn legacy_samples_index_characters_in_order_of_appearance() {
    let mut b = BitsetListBuilder::new();
    b.push_sample("ba", |_| true);
    b.push_sample("cab", |c| c != 'c');
    let list = build_legacy(vec![b]);
    assert_eq!(list.len(), 2);
    let parts = list.to_parts();
    assert_eq!(parts.len(), 1);
    let (starts, codepoints, data) = &parts[0];
    assert_eq!(codepoints, &vec![98, 97]);
    let first = serialized(&[0, 1]);
    assert_eq!(starts, &vec![0, first.len()]);
    // the second sample is written over the start of the buffer
    let second = serialized(&[0, 1]);
    assert_eq!(&data[..second.len()], &second[..]);
}

#[test]
fn legacy_list_from_parts_roundtrip() {
    let parts = vec![(vec![0usize, 4], vec![65u32], vec![1u8, 2, 3]), (vec![], vec![], vec![])];
    let list = mkwebfont::bitset_list::BitsetList::from_parts(parts.clone());
    assert_eq!(list.to_parts(), parts);
    assert_eq!(list.len(), 2);
}
