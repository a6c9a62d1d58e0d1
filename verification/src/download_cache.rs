//! What is known of a downloadable data file: where it comes from, its size and hash, and the
//! name it is cached under.
use vstd::prelude::*;
use crate::hashing::{blake3_hash, blake3_digest};
use crate::nix_base32::{nix_base32, to_nix_base32};
use crate::text::{chars_of, push_chars, push_str, string_from_chars};

verus! {

/// The index of the last occurrence of `c` in `s`, if any.
pub open spec fn last_index_of(s: Seq<char>, c: char) -> Option<int>
    decreases s.len(),
{
    if s.len() == 0 {
        None
    } else if s.last() == c {
        Some(s.len() - 1)
    } else {
        last_index_of(s.drop_last(), c)
    }
}

/// The last `/`-separated segment of a URL.
pub open spec fn url_file_name(url: Seq<char>) -> Seq<char> {
    match last_index_of(url, '/') {
        Some(i) => url.skip(i + 1),
        None => url,
    }
}

/// The part of a file name before its last dot (all of it when there is no dot).
pub open spec fn name_prefix(name: Seq<char>) -> Seq<char> {
    match last_index_of(name, '.') {
        Some(i) => name.take(i),
        None => name,
    }
}

/// The extension of a file name with its dot, or ".dat" when there is no dot.
pub open spec fn name_suffix(name: Seq<char>) -> Seq<char> {
    match last_index_of(name, '.') {
        Some(i) => name.skip(i),
        None => ".dat"@,
    }
}

proof fn lemma_last_index_bounds(s: Seq<char>, c: char)
    ensures
        last_index_of(s, c) matches Some(i) ==> 0 <= i < s.len() && s[i] == c,
    decreases s.len(),
{
    if s.len() > 0 && s.last() != c {
        lemma_last_index_bounds(s.drop_last(), c);
    }
}

fn find_last(s: &Vec<char>, c: char) -> (r: Option<usize>)
    ensures
        r matches Some(i) ==> last_index_of(s@, c) == Some(i as int),
        r is None ==> last_index_of(s@, c) is None,
{
    let mut n: usize = s.len();
    assert(s@.take(n as int) == s@);
    while n > 0
        invariant
            n <= s@.len(),
            last_index_of(s@, c) == last_index_of(s@.take(n as int), c),
        decreases n,
    {
        assert(s@.take(n as int).drop_last() == s@.take(n - 1));
        if s[n - 1] == c {
            return Some(n - 1);
        }
        n = n - 1;
    }
    None
}

fn copy_range(s: &Vec<char>, from: usize, to: usize) -> (r: Vec<char>)
    requires
        from <= to <= s@.len(),
    ensures
        r@ == s@.subrange(from as int, to as int),
{
    let mut r: Vec<char> = Vec::new();
    let mut k = from;
    while k < to
        invariant
            from <= k <= to <= s@.len(),
            r@ == s@.subrange(from as int, k as int),
        decreases to - k,
    {
        r.push(s[k]);
        assert(s@.subrange(from as int, k + 1) == s@.subrange(from as int, k as int).push(s@[k as int]));
        k = k + 1;
    }
    r
}

/// A data file to download: the name it is cached under comes from its URL and its hash.
pub struct DownloadInfo {
    filename_prefix: String,
    filename_suffix: String,
    url: String,
    size: u64,
    hash: Vec<u8>,
}

impl DownloadInfo {
    #[verifier::type_invariant]
    closed spec fn inv(self) -> bool {
        self.hash@.len() == 32
    }

    pub closed spec fn prefix(&self) -> Seq<char> { self.filename_prefix@ }
    pub closed spec fn suffix(&self) -> Seq<char> { self.filename_suffix@ }
    pub closed spec fn url_view(&self) -> Seq<char> { self.url@ }
    pub closed spec fn size_view(&self) -> u64 { self.size }
    pub closed spec fn hash_view(&self) -> Seq<u8> { self.hash@ }

    /// Describes the file at `url` whose content is `data`.
    pub fn for_data(url: &str, data: &[u8]) -> (d: Self)
        requires
            data@.len() <= u64::MAX,
        ensures
            d.prefix() == name_prefix(url_file_name(url@)),
            d.suffix() == name_suffix(url_file_name(url@)),
            d.url_view() == url@,
            d.size_view() == data@.len(),
            d.hash_view() == blake3_hash(data@),
    {
        let url_chars = chars_of(url);
        let filename = match find_last(&url_chars, '/') {
            Some(i) => {
                proof { lemma_last_index_bounds(url_chars@, '/'); }
                copy_range(&url_chars, i + 1, url_chars.len())
            },
            None => copy_range(&url_chars, 0, url_chars.len()),
        };
        assert(url_chars@.subrange(0, url_chars@.len() as int) == url_chars@);
        assert(filename@ == url_file_name(url@));
        let (prefix, suffix) = match find_last(&filename, '.') {
            Some(i) => {
                proof { lemma_last_index_bounds(filename@, '.'); }
                let p = copy_range(&filename, 0, i);
                let s = copy_range(&filename, i, filename.len());
                (p, s)
            },
            None => {
                let p = copy_range(&filename, 0, filename.len());
                (p, chars_of(".dat"))
            },
        };
        assert(filename@.subrange(0, filename@.len() as int) == filename@);
        DownloadInfo {
            filename_prefix: string_from_chars(&prefix),
            filename_suffix: string_from_chars(&suffix),
            url: url.to_owned(),
            size: data.len() as u64,
            hash: blake3_digest(data),
        }
    }

    /// The name the file is cached under: its name without the extension, a dot, its hash in nix
    /// base32, and its extension.
    pub fn cache_file_name(&self) -> (f: String)
        ensures
            f@ == self.prefix() + "."@ + nix_base32(self.hash_view()) + self.suffix(),
    {
        proof { use_type_invariant(self); }
        let mut out: Vec<char> = chars_of(self.filename_prefix.as_str());
        push_str(&mut out, ".");
        let hash_text = to_nix_base32(self.hash.as_slice());
        push_str(&mut out, hash_text.as_str());
        push_str(&mut out, self.filename_suffix.as_str());
        string_from_chars(&out)
    }

    /// Whether `data` is the file: it has the recorded size and hash.
    pub fn accepts(&self, data: &[u8]) -> (b: bool)
        ensures
            b == (data@.len() == self.size_view() && blake3_hash(data@) == self.hash_view()),
    {
        if data.len() as u64 != self.size {
            return false;
        }
        let digest = blake3_digest(data);
        let mut i: usize = 0;
        proof { use_type_invariant(self); }
        while i < 32
            invariant
                i <= 32,
                digest@.len() == 32,
                digest@ == blake3_hash(data@),
                self.hash@.len() == 32,
                forall|k: int| 0 <= k < i ==> digest@[k] == self.hash@[k],
            decreases 32 - i,
        {
            if digest[i] != self.hash[i] {
                assert(digest@ != self.hash@);
                return false;
            }
            i = i + 1;
        }
        assert(digest@ =~= self.hash@);
        true
    }

    /// A description from its parts; `None` unless the hash is 32 bytes long.
    pub fn from_parts(filename_prefix: String, filename_suffix: String, url: String, size: u64, hash: Vec<u8>) -> (r: Option<Self>)
        ensures
            r is Some <==> hash@.len() == 32,
            r matches Some(d) ==> {
                &&& d.prefix() == filename_prefix@
                &&& d.suffix() == filename_suffix@
                &&& d.url_view() == url@
                &&& d.size_view() == size
                &&& d.hash_view() == hash@
            },
    {
        if hash.len() == 32 {
            Some(DownloadInfo { filename_prefix, filename_suffix, url, size, hash })
        } else {
            None
        }
    }

    /// The file name without its extension.
    pub fn filename_prefix(&self) -> (s: &str)
        ensures s@ == self.prefix(),
    {
        self.filename_prefix.as_str()
    }

    /// The extension of the file name, with its dot.
    pub fn filename_suffix(&self) -> (s: &str)
        ensures s@ == self.suffix(),
    {
        self.filename_suffix.as_str()
    }

    /// The hash of the file.
    pub fn hash(&self) -> (h: &[u8])
        ensures h@ == self.hash_view(),
    {
        self.hash.as_slice()
    }

    /// The URL the file is downloaded from.
    pub fn url(&self) -> (s: &str)
        ensures s@ == self.url_view(),
    {
        self.url.as_str()
    }

    /// The size of the file in bytes.
    pub fn size(&self) -> (n: u64)
        ensures n == self.size_view(),
    {
        self.size
    }
}

} // verus!
