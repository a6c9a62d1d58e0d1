use mkwebfont::model::adjacency_array::{place_idx, triangle, AdjacencyArrayBuilder, BlockIdAssigner};
use roaring::RoaringBitmap;

#[test]
fn triangle_numbers() {
    assert_eq!(triangle(0), 0);
    assert_eq!(triangle(1), 1);
    assert_eq!(triangle(4), 10);
    assert_eq!(triangle(100), 5050);
}

#[test]
fn place_index_is_symmetric_and_packed() {
    assert_eq!(place_idx(0, 0), 0);
    assert_eq!(place_idx(1, 1), 1);
    assert_eq!(place_idx(1, 0), 2);
    assert_eq!(place_idx(2, 2), 3);
    assert_eq!(place_idx(2, 0), 5);
    assert_eq!(place_idx(5, 3), place_idx(3, 5));
    let mut seen = std::collections::HashSet::new();
    for a in 0..20usize {
        for b in 0..=a {
            assert!(seen.insert(place_idx(a, b)));
            assert!(place_idx(a, b) < triangle(a + 1));
        }
    }
    assert_eq!(seen.len(), triangle(20));
}

#[test]
fn block_ids_group_names() {
    let mut ids = BlockIdAssigner::new();
    assert_eq!(ids.assign_id(None), None);
    assert_eq!(ids.assign_id(Some("Basic Latin")), Some(0));
    assert_eq!(ids.assign_id(Some("Latin Extended-A")), Some(1));
    assert_eq!(ids.assign_id(Some("Latin Extended Additional")), Some(1));
    assert_eq!(ids.assign_id(Some("CJK Unified Ideographs Extension B")), Some(2));
    assert_eq!(ids.assign_id(Some("CJK Compatibility Ideographs")), Some(3));
    assert_eq!(ids.assign_id(Some("Supplementary Private Use Area-A")), Some(4));
    assert_eq!(ids.assign_id(Some("Basic Latin")), Some(0));
}

fn bitmap(values: &[u32]) -> RoaringBitmap {
    let mut b = RoaringBitmap::new();
    for &v in values {
        b.insert(v);
    }
    b
}

#[test]
fn counts_pairs_of_samples() {
    let glyphs = bitmap(&[10, 20, 30]);
    let mut builder = AdjacencyArrayBuilder::new(&glyphs);
    let chars = [10u32, 20, 99, 30];
    let mut tmp = Vec::new();
    // sample uses chars[0] and chars[1] (10 and 20), and chars[2] which is not tracked
    builder.push_vector(&bitmap(&[0, 1, 2]), &chars, &mut tmp);
    assert_eq!(tmp, vec![0, 1]);
    builder.push_vector(&bitmap(&[1, 3]), &chars, &mut tmp);
    assert_eq!(tmp, vec![1, 2]);
    let (edges, total) = builder.edge_totals();
    // pairs: {10,20} once, {20,30} once
    assert_eq!(edges, vec![1, 2, 1]);
    assert_eq!(total, 2);
}

#[test]
fn joined_builders_add_counts() {
    let glyphs = bitmap(&[1, 2]);
    let chars = [1u32, 2];
    let mut tmp = Vec::new();
    let mut a = AdjacencyArrayBuilder::new(&glyphs);
    a.push_vector(&bitmap(&[0, 1]), &chars, &mut tmp);
    let mut b = AdjacencyArrayBuilder::new(&glyphs);
    b.push_vector(&bitmap(&[0, 1]), &chars, &mut tmp);
    a.join(b);
    let (edges, total) = a.edge_totals();
    assert_eq!(edges, vec![2, 2]);
    assert_eq!(total, 2);
}
