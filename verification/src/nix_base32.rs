//! Nix-compatible base32 encoding of byte strings.
//!
//! The alphabet omits the letters `e`, `o`, `u` and `t`, and the digits of the encoding are
//! emitted most significant first.
use vstd::prelude::*;
use crate::text::string_from_chars;

verus! {

/// The 32 characters of the nix base32 alphabet, in digit order.
pub open spec fn nix_alphabet() -> Seq<char> {
    seq![
        '0', '1', '2', '3', '4', '5', '6', '7', '8', '9', 'a', 'b', 'c', 'd', 'f', 'g',
        'h', 'i', 'j', 'k', 'l', 'm', 'n', 'p', 'q', 'r', 's', 'v', 'w', 'x', 'y', 'z',
    ]
}

/// Number of base32 digits used for `n` bytes: `ceil(8 * n / 5)`.
pub open spec fn nix_len(n: nat) -> nat {
    ((8 * n - 1) / 5 + 1) as nat
}

/// The byte at index `i`, or zero past the end.
pub open spec fn byte_or_zero(bytes: Seq<u8>, i: int) -> u8 {
    if 0 <= i < bytes.len() { bytes[i] } else { 0 }
}

/// The `k`-th 5-bit group of the little-endian bit string of `bytes`: the bits `5k .. 5k+5`,
/// read from the 16-bit window made of the byte holding bit `5k` and the byte after it (bits past
/// the end of the input count as zero).
pub open spec fn nix_digit(bytes: Seq<u8>, k: int) -> int {
    let i = (5 * k) / 8;
    let j = (5 * k) % 8;
    let window: u16 = (bytes[i] as u16) | ((byte_or_zero(bytes, i + 1) as u16) << 8u16);
    ((window >> (j as u16)) % 32) as int
}

/// The nix base32 encoding of `bytes`: digit groups from the most significant to the least.
pub open spec fn nix_base32(bytes: Seq<u8>) -> Seq<char> {
    let len = nix_len(bytes.len());
    Seq::new(len, |p: int| nix_alphabet()[nix_digit(bytes, len - 1 - p)])
}

fn nix_char(d: usize) -> (c: char)
    requires
        d < 32,
    ensures
        c == nix_alphabet()[d as int],
{
    let alphabet: [char; 32] = [
        '0', '1', '2', '3', '4', '5', '6', '7', '8', '9', 'a', 'b', 'c', 'd', 'f', 'g',
        'h', 'i', 'j', 'k', 'l', 'm', 'n', 'p', 'q', 'r', 's', 'v', 'w', 'x', 'y', 'z',
    ];
    assert(alphabet@ == nix_alphabet());
    alphabet[d]
}

proof fn lemma_window_digit(x: u8, y: u8, j: u8)
    requires
        j < 8,
    ensures
        ((x >> j) | (if j == 0 { 0u8 } else { y << ((8 - j) as u8) })) % 32
            == (((x as u16) | ((y as u16) << 8u16)) >> (j as u16)) % 32,
{
    assert(((x >> j) | (if j == 0 { 0u8 } else { y << ((8 - j) as u8) })) % 32
        == (((x as u16) | ((y as u16) << 8u16)) >> (j as u16)) % 32) by (bit_vector)
        requires j < 8;
}

/// Converts the given byte slice to a nix-compatible base32 encoded String.
pub fn to_nix_base32(bytes: &[u8]) -> (s: String)
    requires
        bytes@.len() >= 1,
        bytes@.len() * 8 <= usize::MAX,
    ensures
        s@ == nix_base32(bytes@),
        s@.len() == nix_len(bytes@.len()),
{
    let n = bytes.len();
    let len = (n * 8 - 1) / 5 + 1;
    let ghost spec_len = nix_len(bytes@.len());
    assert(len == spec_len);
    let mut out: Vec<char> = Vec::new();
    let mut m = len;
    while m > 0
        invariant
            len == spec_len,
            n == bytes@.len(),
            n >= 1,
            n * 8 <= usize::MAX,
            m <= len,
            len == (n * 8 - 1) / 5 + 1,
            out@.len() == len - m,
            forall|p: int| 0 <= p < len - m
                ==> out@[p] == #[trigger] nix_alphabet()[nix_digit(bytes@, len - 1 - p)],
        decreases m,
    {
        m = m - 1;
        let b = m * 5;
        let i = b / 8;
        let j = b % 8;
        assert(i < n);
        let x = bytes[i];
        let v1: u8 = x >> (j as u8);
        let y: u8 = if i >= n - 1 { 0 } else { bytes[i + 1] };
        let v2: u8 = if j == 0 { 0 } else { y << ((8 - j) as u8) };
        let v: usize = (v1 | v2) as usize;
        proof {
            lemma_window_digit(x, y, j as u8);
            assert(y == byte_or_zero(bytes@, i + 1));
        }
        let c = nix_char(v % 32);
        let ghost p = len - 1 - m;
        assert(c == nix_alphabet()[nix_digit(bytes@, len - 1 - p)]);
        out.push(c);
    }
    let s = string_from_chars(&out);
    assert(s@ =~= nix_base32(bytes@));
    s
}

} // verus!
