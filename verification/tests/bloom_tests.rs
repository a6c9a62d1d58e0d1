use mkwebfont::bloom::{AdjacencyBloomFilter, BloomFilterBuilder, CodepointInfo, FilterParams};

fn info(count: u64, median: u64, maximum: u64, block: u32) -> CodepointInfo {
    CodepointInfo { count, edge_median: median, edge_maximum: maximum, block_id: block }
}

fn sample_infos() -> Vec<(u32, CodepointInfo)> {
    vec![
        (0x62, info(40, 3, 50, 1)),
        (0x61, info(90, 5, 80, 1)),
        (0x4e00, info(7, 2, 9, 2)),
    ]
}

#[test]
fn builder_starts_empty() {
    let b = BloomFilterBuilder::new("adjacency", 64, 3, sample_infos());
    assert_eq!(b.raw_counts().len(), 64);
    assert!(b.raw_counts().iter().all(|&v| v == 0));
    assert_eq!(b.count_range(), (0, 0));
}

#[test]
fn builder_records_largest_count_in_probed_slots() {
    let mut b = BloomFilterBuilder::new("adjacency", 64, 3, sample_infos());
    b.insert_pairing(0x62, 0x61, 12);
    let probes = FilterParams::new("adjacency", 64, 3).do_hash((0x61, 0x62));
    for &i in &probes {
        assert_eq!(b.raw_counts()[i], 12);
    }
    b.insert_pairing(0x61, 0x62, 8);
    for &i in &probes {
        assert_eq!(b.raw_counts()[i], 12);
    }
    b.insert_pairing(0x61, 0x62, 30);
    for &i in &probes {
        assert_eq!(b.raw_counts()[i], 30);
    }
    let touched = b.raw_counts().iter().filter(|&&v| v != 0).count();
    assert!(touched >= 1 && touched <= 3);
    assert_eq!(b.count_range().1, 30);
}

#[test]
fn builder_ignores_unknown_and_rare_pairs() {
    let mut b = BloomFilterBuilder::new("adjacency", 64, 3, sample_infos());
    b.insert_pairing(0x61, 0x7a, 100);
    assert!(b.raw_counts().iter().all(|&v| v == 0));
    // below the larger median (5) of the two code points
    b.insert_pairing(0x61, 0x62, 4);
    assert!(b.raw_counts().iter().all(|&v| v == 0));
}

fn sample_filter(fill: u8) -> AdjacencyBloomFilter {
    let params = FilterParams::new("adjacency", 64, 3);
    let decode: Vec<u64> = (0..256u64).map(|i| i * 2).collect();
    AdjacencyBloomFilter::from_parts(sample_infos(), params, decode, vec![fill; 64])
}

#[test]
fn filter_lists_glyphs_in_order() {
    let f = sample_filter(0);
    assert_eq!(f.glyph_list(), &['a', 'b', '\u{4e00}'][..]);
}

#[test]
fn filter_frequencies() {
    let f = sample_filter(0);
    assert_eq!(f.get_character_frequency(0x61), 90);
    assert_eq!(f.get_character_frequency(0x7a), 0);
    assert_eq!(f.get_pairing(0x62, 0x62), 40);
}

#[test]
fn filter_pairing_rules() {
    // every slot decodes to 2 * 20 = 40: above the median 5, below the maximum 80
    assert_eq!(sample_filter(20).get_pairing(0x61, 0x62), 40);
    assert_eq!(sample_filter(20).get_pairing(0x62, 0x61), 40);
    // 2 * 100 = 200 is capped at the larger maximum
    assert_eq!(sample_filter(100).get_pairing(0x61, 0x62), 80);
    // 2 * 1 = 2 is not above the median: same block gives the median
    assert_eq!(sample_filter(1).get_pairing(0x61, 0x62), 5);
    // different blocks give 0
    assert_eq!(sample_filter(1).get_pairing(0x61, 0x4e00), 0);
    // an unknown code point gives 0
    assert_eq!(sample_filter(20).get_pairing(0x61, 0x7a), 0);
}

#[test]
fn filter_pairing_takes_smallest_probed_byte() {
    let params = FilterParams::new("adjacency", 64, 3);
    let probes = params.do_hash((0x61, 0x62));
    let mut data = vec![200u8; 64];
    data[probes[1]] = 10;
    let decode: Vec<u64> = (0..256u64).map(|i| i * 2).collect();
    let f = AdjacencyBloomFilter::from_parts(sample_infos(), params, decode, data);
    assert_eq!(f.get_pairing(0x61, 0x62), 20);
}
