use mkwebfont::character_set::{CharacterSet, CompressedCharacterSet};

fn set_of(values: &[u32]) -> CharacterSet {
    let mut s = CharacterSet::new();
    for &v in values {
        s.insert(v);
    }
    s
}

fn sorted(s: &CharacterSet) -> Vec<u32> {
    let mut it = s.iter();
    let mut out = Vec::new();
    while let Some(x) = it.next() {
        out.push(x);
    }
    out.sort();
    out
}

#[test]
fn insert_remove_contains() {
    let mut s = CharacterSet::new();
    assert!(s.is_empty());
    assert!(s.insert(65));
    assert!(!s.insert(65));
    assert!(s.insert(0x10FFFF));
    assert_eq!(s.len(), 2);
    assert!(s.contains(65));
    assert!(!s.contains(66));
    assert!(s.remove(65));
    assert!(!s.remove(65));
    assert_eq!(s.len(), 1);
    assert!(!s.is_empty());
}

#[test]
fn set_operations() {
    let a = set_of(&[1, 2, 3, 4]);
    let b = set_of(&[3, 4, 5]);
    assert_eq!(sorted(&set_of(&[1, 2, 3, 4]).bitand(&b)), vec![3, 4]);
    assert_eq!(sorted(&set_of(&[1, 2, 3, 4]).bitor(&b)), vec![1, 2, 3, 4, 5]);
    assert_eq!(sorted(&set_of(&[1, 2, 3, 4]).bitxor(&b)), vec![1, 2, 5]);
    assert_eq!(sorted(&a.sub(&b)), vec![1, 2]);
}

#[test]
fn extend_adds_all() {
    let mut s = set_of(&[7]);
    s.extend(&vec![1, 7, 9]);
    assert_eq!(sorted(&s), vec![1, 7, 9]);
}

#[test]
fn compressed_form_is_deltas_of_sorted_values() {
    let s = set_of(&[10, 3, 7, 100]);
    let c = s.compressed();
    assert_eq!(c.deltas(), &vec![3, 4, 3, 90]);
}

#[test]
fn decompress_inverts_compress() {
    let s = set_of(&[0, 5, 0x41, 0x4E00, 0x10FFFF]);
    let back = CharacterSet::decompress(&s.compressed());
    assert_eq!(sorted(&back), vec![0, 5, 0x41, 0x4E00, 0x10FFFF]);
}

#[test]
fn decompress_gives_prefix_sums() {
    let c = CompressedCharacterSet::from_deltas(vec![1, 1, 1]).unwrap();
    assert_eq!(sorted(&CharacterSet::decompress(&c)), vec![1, 2, 3]);
}

#[test]
fn compressed_form_unique_roundtrip() {
    let c = CompressedCharacterSet::from_deltas(vec![2, 5, 1]).unwrap();
    let again = CharacterSet::decompress(&c).compressed();
    assert_eq!(again.deltas(), &vec![2, 5, 1]);
}

#[test]
fn from_deltas_rejects_overflow() {
    assert!(CompressedCharacterSet::from_deltas(vec![u32::MAX, 1]).is_none());
    assert!(CompressedCharacterSet::from_deltas(vec![u32::MAX]).is_some());
    assert!(CompressedCharacterSet::from_deltas(vec![]).is_some());
}

#[test]
fn empty_set_compresses_to_nothing() {
    let c = CharacterSet::new().compressed();
    assert!(c.deltas().is_empty());
    assert!(CharacterSet::decompress(&c).is_empty());
}

#[test]
fn into_iter_hands_out_each_once() {
    let s = set_of(&[4, 8, 15]);
    let mut it = s.into_iter();
    let mut out = Vec::new();
    while let Some(x) = it.next() {
        out.push(x);
    }
    out.sort();
    assert_eq!(out, vec![4, 8, 15]);
    assert_eq!(it.next(), None);
}
