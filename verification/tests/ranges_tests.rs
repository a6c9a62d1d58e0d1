use mkwebfont::ranges::{decode_range, encode_range};
use roaring::RoaringBitmap;

fn bitmap(values: &[u32]) -> RoaringBitmap {
    let mut b = RoaringBitmap::new();
    for &v in values {
        b.insert(v);
    }
    b
}

#[test]
fn decode_finds_maximal_runs() {
    let ranges = decode_range(&bitmap(&[1, 2, 3, 5, 7, 8]));
    assert_eq!(ranges, vec!['\u{1}'..='\u{3}', '\u{5}'..='\u{5}', '\u{7}'..='\u{8}']);
}

#[test]
fn decode_empty_bitmap() {
    assert!(decode_range(&RoaringBitmap::new()).is_empty());
}

#[test]
fn encode_covers_each_range() {
    let b = encode_range(&['a'..='c', 'x'..='x']);
    assert_eq!(b.iter().collect::<Vec<_>>(), vec![97, 98, 99, 120]);
}

#[test]
fn encode_skips_empty_ranges() {
    #[allow(clippy::reversed_empty_ranges)]
    let b = encode_range(&['c'..='a']);
    assert!(b.is_empty());
}

#[test]
fn encode_inverts_decode() {
    let bits = bitmap(&[0x20, 0x21, 0x41, 0x4E00, 0x4E01, 0x4E02, 0x10FFFF]);
    let ranges = decode_range(&bits);
    assert_eq!(encode_range(&ranges), bits);
}

#[test]
fn encode_skips_surrogates() {
    let b = encode_range(&['\u{D7FF}'..='\u{E000}']);
    assert_eq!(b.iter().collect::<Vec<_>>(), vec![0xD7FF, 0xE000]);
}
