//! The parts of a diff dump that are checked and queried: the header, the
//! content hashes of the compared files, and lookups among declarations and
//! matches.
use vstd::prelude::*;
use crate::text::str_eq;
use sha2::Digest;

verus! {

/// The version of the dump format this library writes and reads.
pub const CURRENT_VERSION: u32 = 1;

#[derive(Debug, Clone, Copy, PartialEq, Eq, Structural)]
pub struct DumpFlags {
    pub compressed: bool,
    pub has_source_preview: bool,
    pub has_similarity_matrix: bool,
}

#[derive(Debug, Clone, Copy)]
pub struct DumpHeader {
    pub magic: [u8; 4],
    pub version: u32,
    pub flags: DumpFlags,
    pub checksum: u64,
}

/// Why a dump cannot be read.
#[derive(Debug, Clone, Copy, PartialEq, Eq, Structural)]
pub enum DumpHeaderError {
    /// The file does not start with `ASTD`.
    BadMagic,
    /// The dump was written by a newer version of the format.
    TooNew(u32),
    /// The header's checksum is not that of the dump's contents.
    ChecksumMismatch,
}

/// Whether `m` spells `ASTD`.
pub open spec fn is_magic(m: Seq<u8>) -> bool {
    m.len() == 4 && m[0] == 65 && m[1] == 83 && m[2] == 84 && m[3] == 68
}

/// The first `k` bytes of `d` read as a number, most significant first.
pub open spec fn be_word(d: Seq<u8>, k: int) -> int
    decreases k,
{
    if k <= 0 {
        0
    } else {
        be_word(d, k - 1) * 256 + d[k - 1]
    }
}

/// 256 to the power `k`, for `k` up to 8.
pub open spec fn word_bound(k: int) -> int {
    if k <= 0 {
        1
    } else if k == 1 {
        0x100
    } else if k == 2 {
        0x1_0000
    } else if k == 3 {
        0x100_0000
    } else if k == 4 {
        0x1_0000_0000
    } else if k == 5 {
        0x100_0000_0000
    } else if k == 6 {
        0x1_0000_0000_0000
    } else if k == 7 {
        0x100_0000_0000_0000
    } else {
        0x1_0000_0000_0000_0000
    }
}

proof fn lemma_be_word_bound(d: Seq<u8>, k: int)
    requires
        0 <= k <= 8,
        k <= d.len(),
    ensures
        0 <= be_word(d, k) < word_bound(k),
    decreases k,
{
    if k > 0 {
        lemma_be_word_bound(d, k - 1);
        assert(word_bound(k) == word_bound(k - 1) * 256);
    }
}

/// The checksum of a dump's contents `payload` (the dump serialized with a
/// zero checksum): the first eight bytes of its SHA-256 digest, read as a
/// number, most significant first.
pub open spec fn payload_checksum(payload: Seq<u8>) -> int {
    be_word(sha256_of(payload), 8)
}

/// What reading a dump with header `h` and contents `payload` gives:
/// refused when the magic bytes are not `ASTD`, when the version is newer
/// than the current one, or when the checksum is not that of the contents.
pub open spec fn header_status(h: DumpHeader, payload: Seq<u8>) -> Result<(), DumpHeaderError> {
    if !is_magic(h.magic@) {
        Err(DumpHeaderError::BadMagic)
    } else if h.version > CURRENT_VERSION {
        Err(DumpHeaderError::TooNew(h.version))
    } else if h.checksum != payload_checksum(payload) {
        Err(DumpHeaderError::ChecksumMismatch)
    } else {
        Ok(())
    }
}

/// A header as this library writes it (current version, `ASTD`, the
/// checksum of the contents) is accepted when read back with the same
/// contents.
pub proof fn lemma_written_header_accepted(h: DumpHeader, payload: Seq<u8>)
    requires
        is_magic(h.magic@),
        h.version == CURRENT_VERSION,
        h.checksum == payload_checksum(payload),
    ensures
        header_status(h, payload) == Ok::<(), DumpHeaderError>(()),
{
}

/// The checksum of a dump's contents, to be recorded in its header.
pub fn checksum_of(payload: &[u8]) -> (r: u64)
    ensures
        r == payload_checksum(payload@),
{
    let d = sha256(payload);
    let mut acc: u64 = 0;
    let mut k: usize = 0;
    while k < 8
        invariant
            k <= 8,
            d@.len() == 32,
            d@ == sha256_of(payload@),
            acc == be_word(d@, k as int),
        decreases 8 - k,
    {
        proof {
            lemma_be_word_bound(d@, k + 1);
        }
        acc = acc * 256 + d[k] as u64;
        k = k + 1;
    }
    acc
}

impl DumpFlags {
    pub fn new() -> (r: DumpFlags)
        ensures
            !r.compressed && !r.has_source_preview && !r.has_similarity_matrix,
    {
        DumpFlags { compressed: false, has_source_preview: false, has_similarity_matrix: false }
    }
}

impl DumpHeader {
    /// A header of the current version.
    pub fn new(flags: DumpFlags, checksum: u64) -> (r: DumpHeader)
        ensures
            is_magic(r.magic@),
            r.version == CURRENT_VERSION,
            r.flags == flags,
            r.checksum == checksum,
    {
        DumpHeader { magic: [65u8, 83u8, 84u8, 68u8], version: CURRENT_VERSION, flags, checksum }
    }

    /// Whether the dump with contents `payload` (serialized with a zero
    /// checksum) can be read: the magic bytes must be `ASTD`, the version not
    /// newer than the current one, and the checksum that of the contents.
    pub fn check(&self, payload: &[u8]) -> (r: Result<(), DumpHeaderError>)
        ensures
            r == header_status(*self, payload@),
    {
        if !(self.magic[0] == 65 && self.magic[1] == 83 && self.magic[2] == 84 && self.magic[3] == 68) {
            return Err(DumpHeaderError::BadMagic);
        }
        if self.version > CURRENT_VERSION {
            return Err(DumpHeaderError::TooNew(self.version));
        }
        if self.checksum != checksum_of(payload) {
            return Err(DumpHeaderError::ChecksumMismatch);
        }
        Ok(())
    }
}

/// The SHA-256 digest of `data`.
pub uninterp spec fn sha256_of(data: Seq<u8>) -> Seq<u8>;

/// `sha2::Sha256::digest`: the SHA-256 digest of `data`, named `sha256_of`.
#[verifier::external_body]
fn sha256(data: &[u8]) -> (r: [u8; 32])
    ensures
        r@ == sha256_of(data@),
{
    sha2::Sha256::digest(data).into()
}

/// The content hash of a file's bytes.
pub fn content_hash(data: &[u8]) -> (r: [u8; 32])
    ensures
        r@ == sha256_of(data@),
{
    sha256(data)
}

fn same_hash(a: &[u8; 32], b: &[u8; 32]) -> (r: bool)
    ensures
        r == (a@ == b@),
{
    let mut i: usize = 0;
    while i < 32
        invariant
            i <= 32,
            a@.len() == 32,
            b@.len() == 32,
            forall|j: int| 0 <= j < i ==> a@[j] == b@[j],
        decreases 32 - i,
    {
        if a[i] != b[i] {
            return false;
        }
        i = i + 1;
    }
    assert(a@ =~= b@);
    true
}

/// Whether files with contents `data1` and `data2` are those a dump
/// recording the hashes `recorded1` and `recorded2` was made from.
pub open spec fn validates(recorded1: Seq<u8>, recorded2: Seq<u8>, data1: Seq<u8>, data2: Seq<u8>) -> bool {
    sha256_of(data1) == recorded1 && sha256_of(data2) == recorded2
}

/// A dump validates against the files it was made from: the hashes that
/// `content_hash` records for two files' contents are those that
/// `validate` checks the same contents against.
pub proof fn lemma_recorded_hashes_validate(data1: Seq<u8>, data2: Seq<u8>)
    ensures
        validates(sha256_of(data1), sha256_of(data2), data1, data2),
{
}

/// Whether the dump still describes the two files: their contents hash to
/// the recorded hashes.
pub fn validate(recorded1: &[u8; 32], recorded2: &[u8; 32], data1: &[u8], data2: &[u8]) -> (r: bool)
    ensures
        r == validates(recorded1@, recorded2@, data1@, data2@),
{
    let h1 = content_hash(data1);
    let h2 = content_hash(data2);
    same_hash(&h1, recorded1) && same_hash(&h2, recorded2)
}

/// The index of the first name equal to `name`.
pub fn find_declaration(names: &Vec<String>, name: &str) -> (r: Option<usize>)
    ensures
        match r {
            Some(i) => i < names@.len() && names@[i as int]@ == name@ && forall|j: int| 0 <= j < i ==> names@[j]@
                != name@,
            None => forall|j: int| 0 <= j < names@.len() ==> names@[j]@ != name@,
        },
{
    let mut i: usize = 0;
    while i < names.len()
        invariant
            i <= names@.len(),
            forall|j: int| 0 <= j < i ==> names@[j]@ != name@,
        decreases names@.len() - i,
    {
        if str_eq(names[i].as_str(), name) {
            return Some(i);
        }
        i = i + 1;
    }
    None
}

/// The position of the first match whose first index is `idx1`.
pub fn get_match_for(matches: &Vec<(usize, usize)>, idx1: usize) -> (r: Option<usize>)
    ensures
        match r {
            Some(i) => i < matches@.len() && matches@[i as int].0 == idx1 && forall|j: int| 0 <= j < i ==> matches@[j].0
                != idx1,
            None => forall|j: int| 0 <= j < matches@.len() ==> matches@[j].0 != idx1,
        },
{
    let mut i: usize = 0;
    while i < matches.len()
        invariant
            i <= matches@.len(),
            forall|j: int| 0 <= j < i ==> matches@[j].0 != idx1,
        decreases matches@.len() - i,
    {
        if matches[i].0 == idx1 {
            return Some(i);
        }
        i = i + 1;
    }
    None
}

/// The indices below `count` that no match uses on the given side, in order.
pub fn unmatched(count: usize, matched: &Vec<usize>) -> (r: Vec<usize>)
    ensures
        forall|i: int| 0 <= i < r@.len() ==> r@[i] < count && !matched@.contains(r@[i]),
        forall|k: usize| k < count && !matched@.contains(k) ==> r@.contains(k),
        forall|i: int, j: int| 0 <= i < j < r@.len() ==> r@[i] < r@[j],
{
    let mut r: Vec<usize> = Vec::new();
    let mut k: usize = 0;
    while k < count
        invariant
            k <= count,
            forall|i: int| 0 <= i < r@.len() ==> r@[i] < k && !matched@.contains(r@[i]),
            forall|x: usize| x < k && !matched@.contains(x) ==> r@.contains(x),
            forall|i: int, j: int| 0 <= i < j < r@.len() ==> r@[i] < r@[j],
        decreases count - k,
    {
        let mut used = false;
        let mut j: usize = 0;
        while j < matched.len()
            invariant
                j <= matched@.len(),
                used == exists|a: int| 0 <= a < j && matched@[a] == k,
            decreases matched@.len() - j,
        {
            if matched[j] == k {
                used = true;
            }
            j = j + 1;
        }
        let ghost before = r@;
        if !used {
            r.push(k);
            assert(r@[before.len() as int] == k);
            assert forall|x: usize| x < k + 1 && !matched@.contains(x) implies r@.contains(x) by {
                if x < k {
                    assert(before.contains(x));
                    let a = choose|a: int| 0 <= a < before.len() && before[a] == x;
                    assert(r@[a] == x);
                }
            }
        } else {
            assert(matched@.contains(k));
        }
        k = k + 1;
    }
    r
}

} // verus!
