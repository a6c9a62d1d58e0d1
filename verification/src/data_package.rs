//! The data package: named numbers and named byte sections, stored in a file as a framed,
//! zstd-compressed and BLAKE3-checked payload.
use vstd::prelude::*;
use std::io::Cursor;
use crate::hashing::{blake3_hash, blake3_digest};

verus! {

/// What `zstd::decode_all` gives for a byte string: the decompressed bytes, or `None` where
/// the bytes are not zstd frames.
pub uninterp spec fn zstd_decoded(data: Seq<u8>) -> Option<Seq<u8>>;

/// What `zstd::encode_all` gives for `data` at compression level `level`: a single zstd frame.
pub uninterp spec fn zstd_encoded(data: Seq<u8>, level: int) -> Seq<u8>;

/// What a `zstd::stream::write::Encoder` at compression level `level`, told the size of `data`
/// in advance (`set_pledged_src_size`), writes for `data`: a single zstd frame.
pub uninterp spec fn zstd_stream_encoded(data: Seq<u8>, level: int) -> Seq<u8>;

/// Calls `zstd::encode_all` on the bytes at compression level `level`. Its result is "in the
/// zstd frame format", so it starts with the 4-byte frame magic number, and zstd is lossless:
/// decoding it gives `data` back. Compressing from memory into a vector fails only where zstd
/// cannot allocate its context; like any failed allocation, that stops the program here.
#[verifier::external_body]
fn zstd_encode(data: &[u8], level: i32) -> (r: Vec<u8>)
    ensures
        r@ == zstd_encoded(data@, level as int),
        r@.len() > 0,
        zstd_decoded(r@) == Some(data@),
{
    zstd::encode_all(Cursor::new(data), level).expect("zstd could not allocate its context")
}

/// Compresses with a `zstd::stream::write::Encoder` at compression level `level` into a vector,
/// pledging the size of `data` before writing it all and finishing the frame. The frame starts
/// with the 4-byte magic number and decodes to `data`. With the pledged size matching and a
/// vector to write into, the calls fail only where zstd cannot allocate its context; like any
/// failed allocation, that stops the program here.
#[verifier::external_body]
fn zstd_encode_pledged(data: &[u8], level: i32) -> (r: Vec<u8>)
    ensures
        r@ == zstd_stream_encoded(data@, level as int),
        r@.len() > 0,
        zstd_decoded(r@) == Some(data@),
{
    let mut e = zstd::stream::write::Encoder::new(Cursor::new(Vec::new()), level).expect("zstd context");
    e.set_pledged_src_size(Some(data.len() as u64)).expect("zstd context");
    std::io::Write::write_all(&mut e, data).expect("zstd context");
    e.finish().expect("zstd context").into_inner()
}

/// Calls `zstd::decode_all`, which decompresses zstd frames; `None` where it fails.
#[verifier::external_body]
fn zstd_decode(data: &[u8]) -> (r: Option<Vec<u8>>)
    ensures
        match r {
            Some(v) => zstd_decoded(data@) == Some(v@),
            None => zstd_decoded(data@) is None,
        },
{
    zstd::decode_all(Cursor::new(data)).ok()
}

/// zstd failed to compress or decompress the data.
pub struct ZstdFailed;

/// Compresses `data` with zstd at level 10.
pub fn zstd_compress(data: &[u8]) -> (r: Result<Vec<u8>, ZstdFailed>)
    ensures
        r matches Ok(c) && c@ == zstd_encoded(data@, 10),
        r matches Ok(c) && zstd_decoded(c@) == Some(data@),
{
    Ok(zstd_encode(data, 10))
}

/// Decompresses zstd frames.
pub fn zstd_decompress(data: &[u8]) -> (r: Result<Vec<u8>, ZstdFailed>)
    ensures
        match r {
            Ok(v) => zstd_decoded(data@) == Some(v@),
            Err(_) => zstd_decoded(data@) is None,
        },
{
    match zstd_decode(data) {
        Some(v) => Ok(v),
        None => Err(ZstdFailed),
    }
}

/// The bytes a package file starts with: `mkwbfont`.
pub open spec fn package_magic() -> Seq<u8> {
    seq![0x6du8, 0x6bu8, 0x77u8, 0x62u8, 0x66u8, 0x6fu8, 0x6eu8, 0x74u8]
}

/// The format version that follows: `v0.1`.
pub open spec fn package_version() -> Seq<u8> {
    seq![0x76u8, 0x30u8, 0x2eu8, 0x31u8]
}

/// The header of a package file: magic, version, the hash of the payload and the hash of the
/// compressed payload.
pub open spec fn package_header(data_hash: Seq<u8>, compressed_hash: Seq<u8>) -> Seq<u8> {
    package_magic() + package_version() + data_hash + compressed_hash
}

/// Why a package file is refused, in the order the checks are made.
#[derive(Copy, Clone, Debug, PartialEq, Eq, Structural)]
pub enum PackageError {
    /// The file is no longer than its 76-byte header.
    TooShort,
    /// The file does not start with `mkwbfont`.
    BadMagic,
    /// The version is not `v0.1`.
    BadVersion,
    /// The compressed payload does not have the hash the header gives.
    CompressedHashMismatch,
    /// The compressed payload is not zstd data.
    Decompression,
    /// The payload does not have the hash the header gives.
    DataHashMismatch,
    /// zstd failed to compress the payload.
    Compression,
}

/// What reading a package file gives: the payload, or why the file is refused.
pub open spec fn unframed(data: Seq<u8>) -> Result<Seq<u8>, PackageError> {
    if data.len() <= 76 {
        Err(PackageError::TooShort)
    } else if data.subrange(0, 8) != package_magic() {
        Err(PackageError::BadMagic)
    } else if data.subrange(8, 12) != package_version() {
        Err(PackageError::BadVersion)
    } else if blake3_hash(data.skip(76)) != data.subrange(44, 76) {
        Err(PackageError::CompressedHashMismatch)
    } else {
        match zstd_decoded(data.skip(76)) {
            None => Err(PackageError::Decompression),
            Some(payload) => if blake3_hash(payload) != data.subrange(12, 44) {
                Err(PackageError::DataHashMismatch)
            } else {
                Ok(payload)
            },
        }
    }
}

/// Whether two byte strings are equal.
fn bytes_eq(a: &[u8], b: &[u8]) -> (r: bool)
    ensures
        r == (a@ == b@),
{
    if a.len() != b.len() {
        return false;
    }
    let mut i: usize = 0;
    while i < a.len()
        invariant
            i <= a@.len(),
            a@.len() == b@.len(),
            forall|k: int| 0 <= k < i ==> a@[k] == b@[k],
        decreases a@.len() - i,
    {
        if a[i] != b[i] {
            return false;
        }
        i = i + 1;
    }
    assert(a@ =~= b@);
    true
}

/// The bytes of `s` from `start` to `end`.
fn copy_bytes(s: &[u8], start: usize, end: usize) -> (r: Vec<u8>)
    requires
        start <= end <= s@.len(),
    ensures
        r@ == s@.subrange(start as int, end as int),
{
    let mut r: Vec<u8> = Vec::new();
    let mut i: usize = start;
    while i < end
        invariant
            start <= i <= end <= s@.len(),
            r@ == s@.subrange(start as int, i as int),
        decreases end - i,
    {
        r.push(s[i]);
        assert(s@.subrange(start as int, i + 1) =~= s@.subrange(start as int, i as int).push(s@[i as int]));
        i = i + 1;
    }
    r
}

/// Appends `b` to `out`.
fn append_bytes(out: &mut Vec<u8>, b: &[u8])
    ensures
        final(out)@ == old(out)@ + b@,
{
    let mut i: usize = 0;
    while i < b.len()
        invariant
            i <= b@.len(),
            out@ == old(out)@ + b@.take(i as int),
        decreases b@.len() - i,
    {
        out.push(b[i]);
        assert(b@.take(i + 1) =~= b@.take(i as int).push(b@[i as int]));
        i = i + 1;
    }
    assert(b@.take(b@.len() as int) =~= b@);
}

/// The package magic and version bytes.
fn magic_and_version() -> (v: Vec<u8>)
    ensures
        v@ == package_magic() + package_version(),
{
    let v: Vec<u8> = vec![0x6du8, 0x6bu8, 0x77u8, 0x62u8, 0x66u8, 0x6fu8, 0x6eu8, 0x74u8, 0x76u8, 0x30u8, 0x2eu8, 0x31u8];
    assert(v@ =~= package_magic() + package_version());
    v
}

/// The package file for a payload: the header with the BLAKE3 hashes of the payload and of its
/// zstd frame (level 20, size pledged), then the frame.
pub open spec fn framed_package(payload: Seq<u8>) -> Seq<u8> {
    let c = zstd_stream_encoded(payload, 20);
    package_header(blake3_hash(payload), blake3_hash(c)) + c
}

/// Frames a payload as a package file: it is compressed with zstd (level 20), and the header
/// records the BLAKE3 hashes of the payload and of the compressed payload.
pub fn frame_package(payload: &[u8]) -> (r: Result<Vec<u8>, PackageError>)
    ensures
        r matches Ok(out) && out@ == framed_package(payload@),
        zstd_decoded(zstd_stream_encoded(payload@, 20)) == Some(payload@),
        zstd_stream_encoded(payload@, 20).len() > 0,
        blake3_hash(payload@).len() == 32,
        blake3_hash(zstd_stream_encoded(payload@, 20)).len() == 32,
{
    let compressed = zstd_encode_pledged(payload, 20);
    let data_hash = blake3_digest(payload);
    let compressed_hash = blake3_digest(compressed.as_slice());
    let mut out = magic_and_version();
    append_bytes(&mut out, data_hash.as_slice());
    append_bytes(&mut out, compressed_hash.as_slice());
    append_bytes(&mut out, compressed.as_slice());
    Ok(out)
}

/// Reads a package file: checks its length, magic and version, the hash of the compressed
/// payload, decompresses it and checks the hash of the payload.
pub fn unframe_package(data: &[u8]) -> (r: Result<Vec<u8>, PackageError>)
    ensures
        match r {
            Ok(v) => unframed(data@) == Ok::<Seq<u8>, PackageError>(v@),
            Err(e) => unframed(data@) == Err::<Seq<u8>, PackageError>(e),
        },
{
    if data.len() <= 76 {
        return Err(PackageError::TooShort);
    }
    let head = magic_and_version();
    let magic = copy_bytes(data, 0, 8);
    let version = copy_bytes(data, 8, 12);
    let expected_magic = copy_bytes(head.as_slice(), 0, 8);
    let expected_version = copy_bytes(head.as_slice(), 8, 12);
    assert(expected_magic@ =~= package_magic());
    assert(expected_version@ =~= package_version());
    if !bytes_eq(magic.as_slice(), expected_magic.as_slice()) {
        return Err(PackageError::BadMagic);
    }
    if !bytes_eq(version.as_slice(), expected_version.as_slice()) {
        return Err(PackageError::BadVersion);
    }
    let data_hash = copy_bytes(data, 12, 44);
    let compressed_hash = copy_bytes(data, 44, 76);
    let compressed = copy_bytes(data, 76, data.len());
    assert(compressed@ =~= data@.skip(76));
    let actual = blake3_digest(compressed.as_slice());
    if !bytes_eq(actual.as_slice(), compressed_hash.as_slice()) {
        return Err(PackageError::CompressedHashMismatch);
    }
    let payload = match zstd_decode(compressed.as_slice()) {
        Some(p) => p,
        None => return Err(PackageError::Decompression),
    };
    let actual_data = blake3_digest(payload.as_slice());
    if !bytes_eq(actual_data.as_slice(), data_hash.as_slice()) {
        return Err(PackageError::DataHashMismatch);
    }
    Ok(payload)
}

/// Reading the package file of a payload gives back the payload. The requirements are what
/// `frame_package` ensures of the zstd frame and the hashes it writes.
pub proof fn law_unframe_inverts_frame(payload: Seq<u8>)
    requires
        zstd_decoded(zstd_stream_encoded(payload, 20)) == Some(payload),
        zstd_stream_encoded(payload, 20).len() > 0,
        blake3_hash(payload).len() == 32,
        blake3_hash(zstd_stream_encoded(payload, 20)).len() == 32,
    ensures
        unframed(framed_package(payload)) == Ok::<Seq<u8>, PackageError>(payload),
{
    let c = zstd_stream_encoded(payload, 20);
    let out = framed_package(payload);
    assert(out.subrange(0, 8) =~= package_magic());
    assert(out.subrange(8, 12) =~= package_version());
    assert(out.subrange(12, 44) =~= blake3_hash(payload));
    assert(out.subrange(44, 76) =~= blake3_hash(c));
    assert(out.skip(76) =~= c);
}

/// The keys of a table, in order.
pub open spec fn keys_of<V>(t: Seq<(String, V)>) -> Seq<Seq<char>> {
    t.map_values(|e: (String, V)| e.0@)
}

/// No key occurs twice.
pub open spec fn unique_keys<V>(t: Seq<(String, V)>) -> bool {
    forall|i: int, j: int| 0 <= i < j < t.len() ==> (#[trigger] t[i]).0@ != (#[trigger] t[j]).0@
}

/// A table as a map from key to value.
pub open spec fn table_of<V>(t: Seq<(String, V)>) -> Map<Seq<char>, V> {
    Map::new(|k: Seq<char>| keys_of(t).contains(k), |k: Seq<char>| t[keys_of(t).index_of(k)].1)
}

/// The map holds, under the key at position `i`, the value there.
proof fn lemma_table_at<V>(t: Seq<(String, V)>, i: int)
    requires
        unique_keys(t),
        0 <= i < t.len(),
    ensures
        table_of(t).contains_key(t[i].0@),
        table_of(t)[t[i].0@] == t[i].1,
{
    let k = t[i].0@;
    assert(keys_of(t)[i] == k);
    let j = keys_of(t).index_of(k);
    assert(keys_of(t)[j] == k);
    if i < j {
        assert(t[i].0@ != t[j].0@);
    } else if j < i {
        assert(t[j].0@ != t[i].0@);
    }
}

/// The position of `key`, if the table holds it.
fn find_key<V>(t: &Vec<(String, V)>, key: &str) -> (r: Option<usize>)
    ensures
        match r {
            Some(i) => i < t@.len() && t@[i as int].0@ == key@,
            None => !keys_of(t@).contains(key@),
        },
{
    let target = key.to_string();
    let mut i: usize = 0;
    while i < t.len()
        invariant
            i <= t@.len(),
            target@ == key@,
            forall|q: int| 0 <= q < i ==> (#[trigger] t@[q]).0@ != key@,
        decreases t@.len() - i,
    {
        if t[i].0 == target {
            return Some(i);
        }
        i = i + 1;
    }
    proof {
        if keys_of(t@).contains(key@) {
            let q = choose|q: int| 0 <= q < keys_of(t@).len() && keys_of(t@)[q] == key@;
            assert(t@[q].0@ == key@);
        }
    }
    None
}

/// Adds a key that the table does not hold.
fn push_new<V>(t: &mut Vec<(String, V)>, key: &str, value: V)
    requires
        unique_keys(old(t)@),
        !keys_of(old(t)@).contains(key@),
    ensures
        unique_keys(final(t)@),
        table_of(final(t)@) == table_of(old(t)@).insert(key@, value),
{
    let ghost before = t@;
    t.push((key.to_string(), value));
    proof {
        let now = t@;
        assert forall|i: int| 0 <= i < before.len() implies (#[trigger] now[i]).0@ != key@ by {
            assert(keys_of(before)[i] == before[i].0@);
            assert(now[i] == before[i]);
        }
        assert(keys_of(now) =~= keys_of(before).push(key@));
        assert forall|k: Seq<char>| #[trigger] table_of(now).contains_key(k)
            == table_of(before).insert(key@, value).contains_key(k) by {
            crate::sort::lemma_push_contains(keys_of(before), key@, k);
        }
        assert forall|k: Seq<char>| #[trigger] table_of(now).contains_key(k)
            implies table_of(now)[k] == table_of(before).insert(key@, value)[k] by {
            crate::sort::lemma_push_contains(keys_of(before), key@, k);
            let j = keys_of(now).index_of(k);
            assert(keys_of(now)[j] == k);
            lemma_table_at(now, j);
            if k != key@ {
                assert(j < before.len());
                assert(now[j] == before[j]);
                lemma_table_at(before, j);
            } else {
                lemma_table_at(now, before.len() as int);
            }
        }
        assert(table_of(now) =~= table_of(before).insert(key@, value));
    }
}

/// A section or number that the package lacks.
pub struct MissingSection {
    pub key: String,
}

/// A data package: an id, the time it was made, named numbers and named byte sections.
pub struct DataPackage {
    package_id: String,
    timestamp: u64,
    meta_num: Vec<(String, i64)>,
    files: Vec<(String, Vec<u8>)>,
}

impl DataPackage {
    /// No key occurs twice in a table.
    #[verifier::type_invariant]
    closed spec fn wf(&self) -> bool {
        unique_keys(self.meta_num@) && unique_keys(self.files@)
    }

    pub closed spec fn id_view(&self) -> Seq<char> {
        self.package_id@
    }

    pub closed spec fn timestamp_view(&self) -> u64 {
        self.timestamp
    }

    /// The named numbers.
    pub closed spec fn numbers(&self) -> Map<Seq<char>, i64> {
        table_of(self.meta_num@)
    }

    /// The named byte sections.
    pub closed spec fn sections(&self) -> Map<Seq<char>, Vec<u8>> {
        table_of(self.files@)
    }

    /// The package's id.
    pub fn package_id(&self) -> (s: &str)
        ensures
            s@ == self.id_view(),
    {
        self.package_id.as_str()
    }

    /// When the package was made, in seconds since the Unix epoch.
    pub fn timestamp(&self) -> (t: u64)
        ensures
            t == self.timestamp_view(),
    {
        self.timestamp
    }

    /// The number named `key`.
    pub fn get_i64(&self, key: &str) -> (r: Result<i64, MissingSection>)
        ensures
            match r {
                Ok(x) => self.numbers().contains_key(key@) && x == self.numbers()[key@],
                Err(e) => !self.numbers().contains_key(key@) && e.key@ == key@,
            },
    {
        proof { use_type_invariant(self); }
        match find_key(&self.meta_num, key) {
            Some(i) => {
                proof { lemma_table_at(self.meta_num@, i as int); }
                Ok(self.meta_num[i].1)
            },
            None => Err(MissingSection { key: key.to_string() }),
        }
    }

    /// The number named `key`, read as unsigned.
    pub fn get_u64(&self, key: &str) -> (r: Result<u64, MissingSection>)
        ensures
            match r {
                Ok(x) => self.numbers().contains_key(key@) && x == self.numbers()[key@] as u64,
                Err(e) => !self.numbers().contains_key(key@) && e.key@ == key@,
            },
    {
        match self.get_i64(key) {
            Ok(x) => Ok(x as u64),
            Err(e) => Err(e),
        }
    }

    /// The section named `key`.
    pub fn get_data(&self, key: &str) -> (r: Result<&[u8], MissingSection>)
        ensures
            match r {
                Ok(d) => self.sections().contains_key(key@) && d@ == self.sections()[key@]@,
                Err(e) => !self.sections().contains_key(key@) && e.key@ == key@,
            },
    {
        proof { use_type_invariant(self); }
        match find_key(&self.files, key) {
            Some(i) => {
                proof { lemma_table_at(self.files@, i as int); }
                Ok(self.files[i].1.as_slice())
            },
            None => Err(MissingSection { key: key.to_string() }),
        }
    }

    /// Takes the section named `key` out of the package.
    pub fn take_data(&mut self, key: &str) -> (r: Result<Vec<u8>, MissingSection>)
        ensures
            final(self).id_view() == old(self).id_view(),
            final(self).timestamp_view() == old(self).timestamp_view(),
            final(self).numbers() == old(self).numbers(),
            match r {
                Ok(d) => old(self).sections().contains_key(key@) && d == old(self).sections()[key@]
                    && final(self).sections() == old(self).sections().remove(key@),
                Err(e) => !old(self).sections().contains_key(key@) && e.key@ == key@
                    && final(self).sections() == old(self).sections(),
            },
    {
        proof { use_type_invariant(&*self); }
        match find_key(&self.files, key) {
            Some(i) => {
                proof { lemma_table_at(self.files@, i as int); }
                let ghost before = self.files@;
                let mut files: Vec<(String, Vec<u8>)> = Vec::new();
                std::mem::swap(&mut files, &mut self.files);
                let entry = files.remove(i);
                proof {
                    let now = files@;
                    assert(now =~= before.remove(i as int));
                    assert forall|a: int, b: int| 0 <= a < b < now.len() implies (#[trigger] now[a]).0@ != (#[trigger] now[b]).0@ by {
                        let a2 = if a < i { a } else { a + 1 };
                        let b2 = if b < i { b } else { b + 1 };
                        assert(now[a] == before[a2]);
                        assert(now[b] == before[b2]);
                    }
                    assert forall|q: int| 0 <= q < now.len() implies (#[trigger] now[q]).0@ != key@ by {
                        let q2 = if q < i { q } else { q + 1 };
                        assert(now[q] == before[q2]);
                    }
                    assert forall|k: Seq<char>| #[trigger] table_of(now).contains_key(k)
                        == table_of(before).remove(key@).contains_key(k) by {
                        if keys_of(now).contains(k) {
                            let q = choose|q: int| 0 <= q < keys_of(now).len() && keys_of(now)[q] == k;
                            let q2 = if q < i { q } else { q + 1 };
                            assert(now[q] == before[q2]);
                            assert(keys_of(before)[q2] == k);
                        }
                        if keys_of(before).contains(k) && k != key@ {
                            let q = choose|q: int| 0 <= q < keys_of(before).len() && keys_of(before)[q] == k;
                            assert(q != i);
                            let q2 = if q < i { q } else { q - 1 };
                            assert(now[q2] == before[q]);
                            assert(keys_of(now)[q2] == k);
                        }
                    }
                    assert forall|k: Seq<char>| #[trigger] table_of(now).contains_key(k)
                        implies table_of(now)[k] == table_of(before).remove(key@)[k] by {
                        let j = keys_of(now).index_of(k);
                        assert(keys_of(now)[j] == k);
                        lemma_table_at(now, j);
                        let j2 = if j < i { j } else { j + 1 };
                        assert(now[j] == before[j2]);
                        lemma_table_at(before, j2);
                    }
                    assert(table_of(now) =~= table_of(before).remove(key@));
                }
                self.files = files;
                Ok(entry.1)
            },
            None => Err(MissingSection { key: key.to_string() }),
        }
    }

    /// The named numbers, in the order they were added.
    pub fn number_entries(&self) -> (n: &[(String, i64)])
        ensures
            table_of(n@) == self.numbers(),
            unique_keys(n@),
    {
        proof { use_type_invariant(self); }
        self.meta_num.as_slice()
    }

    /// The named sections, in the order they were added.
    pub fn section_entries(&self) -> (s: &[(String, Vec<u8>)])
        ensures
            table_of(s@) == self.sections(),
            unique_keys(s@),
    {
        proof { use_type_invariant(self); }
        self.files.as_slice()
    }

    /// A package from its parts; `None` where a key occurs twice in a table.
    pub fn from_parts(package_id: String, timestamp: u64, numbers: Vec<(String, i64)>, sections: Vec<(String, Vec<u8>)>)
        -> (r: Option<Self>)
        ensures
            r is Some <==> unique_keys(numbers@) && unique_keys(sections@),
            r matches Some(p) ==> {
                &&& p.id_view() == package_id@
                &&& p.timestamp_view() == timestamp
                &&& p.numbers() == table_of(numbers@)
                &&& p.sections() == table_of(sections@)
            },
    {
        if has_unique_keys(&numbers) && has_unique_keys(&sections) {
            Some(DataPackage { package_id, timestamp, meta_num: numbers, files: sections })
        } else {
            None
        }
    }
}

/// Whether no key of the table occurs twice.
fn has_unique_keys<V>(t: &Vec<(String, V)>) -> (r: bool)
    ensures
        r == unique_keys(t@),
{
    let mut j: usize = 0;
    while j < t.len()
        invariant
            j <= t@.len(),
            forall|a: int, b: int| 0 <= a < b < j ==> (#[trigger] t@[a]).0@ != (#[trigger] t@[b]).0@,
        decreases t@.len() - j,
    {
        let mut i: usize = 0;
        while i < j
            invariant
                i <= j < t@.len(),
                forall|a: int| 0 <= a < i ==> (#[trigger] t@[a]).0@ != t@[j as int].0@,
            decreases j - i,
        {
            if t[i].0 == t[j].0 {
                return false;
            }
            i = i + 1;
        }
        j = j + 1;
    }
    true
}

/// Builds a data package, one named number or section at a time.
pub struct DataPackageEncoder(DataPackage);

impl DataPackageEncoder {
    /// The package being built.
    pub closed spec fn package(&self) -> DataPackage {
        self.0
    }

    /// Starts an empty package with this id, made at `timestamp` (seconds since the Unix epoch).
    pub fn new(id: &str, timestamp: u64) -> (e: Self)
        ensures
            e.package().id_view() == id@,
            e.package().timestamp_view() == timestamp,
            e.package().numbers() == Map::<Seq<char>, i64>::empty(),
            e.package().sections() == Map::<Seq<char>, Vec<u8>>::empty(),
    {
        let p = DataPackage { package_id: id.to_string(), timestamp, meta_num: Vec::new(), files: Vec::new() };
        assert(p.numbers() =~= Map::<Seq<char>, i64>::empty());
        assert(p.sections() =~= Map::<Seq<char>, Vec<u8>>::empty());
        DataPackageEncoder(p)
    }

    /// Whether the package being built holds a number named `key`.
    pub fn has_number(&self, key: &str) -> (b: bool)
        ensures
            b == self.package().numbers().contains_key(key@),
    {
        match find_key(&self.0.meta_num, key) {
            Some(i) => {
                assert(keys_of(self.0.meta_num@)[i as int] == key@);
                true
            },
            None => false,
        }
    }

    /// Whether the package being built holds a section named `key`.
    pub fn has_section(&self, key: &str) -> (b: bool)
        ensures
            b == self.package().sections().contains_key(key@),
    {
        match find_key(&self.0.files, key) {
            Some(i) => {
                assert(keys_of(self.0.files@)[i as int] == key@);
                true
            },
            None => false,
        }
    }

    /// Adds a number under a key the package does not hold yet.
    pub fn insert_i64(&mut self, key: &str, data: i64)
        requires
            !old(self).package().numbers().contains_key(key@),
        ensures
            final(self).package().id_view() == old(self).package().id_view(),
            final(self).package().timestamp_view() == old(self).package().timestamp_view(),
            final(self).package().sections() == old(self).package().sections(),
            final(self).package().numbers() == old(self).package().numbers().insert(key@, data),
    {
        proof { use_type_invariant(&self.0); }
        let mut nums: Vec<(String, i64)> = Vec::new();
        std::mem::swap(&mut nums, &mut self.0.meta_num);
        push_new(&mut nums, key, data);
        self.0.meta_num = nums;
    }

    /// Adds an unsigned number, stored as the signed number with the same bits.
    pub fn insert_u64(&mut self, key: &str, data: u64)
        requires
            !old(self).package().numbers().contains_key(key@),
        ensures
            final(self).package().id_view() == old(self).package().id_view(),
            final(self).package().timestamp_view() == old(self).package().timestamp_view(),
            final(self).package().sections() == old(self).package().sections(),
            final(self).package().numbers() == old(self).package().numbers().insert(key@, data as i64),
    {
        self.insert_i64(key, data as i64);
    }

    /// Adds a section under a key the package does not hold yet.
    pub fn insert_data(&mut self, key: &str, data: Vec<u8>)
        requires
            !old(self).package().sections().contains_key(key@),
        ensures
            final(self).package().id_view() == old(self).package().id_view(),
            final(self).package().timestamp_view() == old(self).package().timestamp_view(),
            final(self).package().numbers() == old(self).package().numbers(),
            final(self).package().sections() == old(self).package().sections().insert(key@, data),
    {
        proof { use_type_invariant(&self.0); }
        let mut files: Vec<(String, Vec<u8>)> = Vec::new();
        std::mem::swap(&mut files, &mut self.0.files);
        push_new(&mut files, key, data);
        self.0.files = files;
    }

    /// The package built.
    pub fn build(self) -> (p: DataPackage)
        ensures
            p == self.package(),
    {
        self.0
    }
}

} // verus!
