use mkwebfont::hashing::{hash_full, hash_fragment, nix_fragment};
use mkwebfont::nix_base32::to_nix_base32;

#[test]
fn nix_base32_of_single_bytes() {
    assert_eq!(to_nix_base32(&[0]), "00");
    assert_eq!(to_nix_base32(&[0xff]), "7z");
}

#[test]
fn nix_base32_of_several_bytes() {
    assert_eq!(to_nix_base32(&[1, 2, 3]), "060h1");
    assert_eq!(to_nix_base32(b"hello"), "dxn6qrb8");
}

#[test]
fn nix_base32_length_law() {
    for n in 1..40usize {
        let data: Vec<u8> = (0..n).map(|x| (x * 37 + 11) as u8).collect();
        let text = to_nix_base32(&data);
        assert_eq!(text.len(), (n * 8 - 1) / 5 + 1);
        assert!(text.chars().all(|c| "0123456789abcdfghijklmnpqrsvwxyz".contains(c)));
    }
}

#[test]
fn full_hash_of_empty_input() {
    assert_eq!(hash_full(b""), "0qij3zjcm4wsrjvi5hddr4jwp6s9r7f3dsjd82had8grynwlj4xg");
}

#[test]
fn fragment_of_empty_input() {
    assert_eq!(hash_fragment(b""), "qij3zjcm4wsrjvi5hddr");
    let full = hash_full(b"some data");
    assert_eq!(hash_fragment(b"some data"), full[1..21].to_string());
}

#[test]
fn fragment_of_digest() {
    let digest = blake3::hash(b"").as_bytes().to_vec();
    assert_eq!(nix_fragment(&digest), "qij3zjcm4wsrjvi5hddr");
    assert_ne!(hash_fragment(b"a"), hash_fragment(b"b"));
}
