use mkwebfont::adjacency_splitter::{adjacency_groups, frequency_order, AdjacencySplitter};
use mkwebfont::character_set::CharacterSet;
use mkwebfont::model::adjacency_array::{AdjacencyArray, PLACE_SENTINEL};

fn set(values: &[u32]) -> CharacterSet {
    let mut s = CharacterSet::new();
    for &v in values {
        s.insert(v);
    }
    s
}

/// Three code points `a`, `b`, `c` at places 0, 1, 2; byte code `v` stands for `10 * v`.
/// Slots: {0,0}=0, {1,1}=1, {1,0}=2, {2,2}=3, {2,1}=4, {2,0}=5.
fn small_array(ab: u8) -> AdjacencyArray {
    let places = vec![(97, 0), (98, 1), (99, 2), (100, PLACE_SENTINEL)];
    let glyphs = vec!['a', 'b', 'c'];
    let decode: Vec<u64> = (0..256u64).map(|v| v * 10).collect();
    let data = vec![5, 7, ab, 2, 1, 0];
    AdjacencyArray::from_parts(places, glyphs, decode, data)
}

#[test]
fn frequencies_and_pairings() {
    let a = small_array(3);
    assert_eq!(a.glyph_list(), &['a', 'b', 'c']);
    assert_eq!(a.get_character_frequency(97), 50);
    assert_eq!(a.get_character_frequency(98), 70);
    assert_eq!(a.get_character_frequency(99), 20);
    // No place, or unknown: 0.
    assert_eq!(a.get_character_frequency(100), 0);
    assert_eq!(a.get_character_frequency(101), 0);
    assert_eq!(a.get_pairing(97, 98), 30);
    assert_eq!(a.get_pairing(98, 97), 30);
    assert_eq!(a.get_pairing(98, 99), 10);
    assert_eq!(a.get_pairing(97, 99), 0);
    assert_eq!(a.get_pairing(97, 100), 0);
}

#[test]
fn wasted_space_takes_the_largest_term() {
    let a = small_array(3);
    assert_eq!(a.estimate_wasted_space_score(&[], 98), 0);
    assert_eq!(a.estimate_wasted_space_score(&[97], 98), 50 + 70 - 60);
    assert_eq!(a.estimate_wasted_space_score(&[97, 99], 98), 70);
}

#[test]
fn wasted_space_wraps() {
    let a = small_array(9);
    assert_eq!(a.estimate_wasted_space_score(&[97], 98), (50u64 + 70).wrapping_sub(180));
}

#[test]
fn order_is_by_frequency_then_code_point() {
    let a = small_array(3);
    assert_eq!(frequency_order(&a, &set(&[97, 98, 99, 100])), vec![100, 99, 97, 98]);
}

#[test]
fn common_pairs_share_a_subset() {
    let a = small_array(3);
    let r = AdjacencySplitter.split(&a, &set(&[97, 98, 99]));
    assert_eq!(r, vec![("ss0".to_string(), vec![97, 98, 99])]);
}

#[test]
fn a_wasteful_code_point_opens_a_subset() {
    // The pair count of a and b is larger than their frequencies: the waste term wraps around
    // and b goes to a subset of its own.
    let a = small_array(9);
    let order = frequency_order(&a, &set(&[97, 98]));
    assert_eq!(order, vec![97, 98]);
    assert_eq!(adjacency_groups(&a, &order), vec![vec![97], vec![98]]);
}

#[test]
fn full_subsets_are_closed() {
    let n: u32 = 101;
    let places: Vec<(u32, u32)> = (0..n).map(|i| (0x4E00 + i, i)).collect();
    let glyphs: Vec<char> = (0..n).map(|i| char::from_u32(0x4E00 + i).unwrap()).collect();
    let decode: Vec<u64> = vec![0; 256];
    let data = vec![0u8; (n * (n + 1) / 2) as usize];
    let a = AdjacencyArray::from_parts(places, glyphs, decode, data);
    let chars = set(&(0..n).map(|i| 0x4E00 + i).collect::<Vec<u32>>());
    let r = AdjacencySplitter.split(&a, &chars);
    assert_eq!(r.len(), 2);
    assert_eq!(r[0].0, "ss0");
    assert_eq!(r[0].1, (0..100).map(|i| 0x4E00 + i).collect::<Vec<u32>>());
    assert_eq!(r[1], ("ss1".to_string(), vec![0x4E00 + 100]));
}
