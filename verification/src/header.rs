//! The fixed 70-byte TTB v1 bundle header.

use vstd::prelude::*;
use vstd::slice::slice_subrange;

verus! {

/// A validated TTB v1 header: where the compressed index lies, how long it
/// is compressed and uncompressed, and the 32-byte content digest.
#[derive(Clone, Debug, PartialEq, Eq)]
pub struct TTBv1Header {
    pub index_start: u64,
    pub index_real_len: u32,
    pub index_gzip_len: u32,
    pub digest: Vec<u8>,
}

/// Why a 70-byte prefix failed to parse as a TTB v1 header.
#[derive(Clone, Copy, Debug, PartialEq, Eq, Structural)]
pub enum HeaderError {
    /// Fewer than 70 bytes were available.
    ShortRead,
    /// The first 14 bytes are not the bundle signature.
    NotABundle,
    /// The format version is not 1.
    WrongVersion,
}

/// The ASCII bytes of `tectonicbundle`.
pub open spec fn signature() -> Seq<u8> {
    seq![116u8, 101, 99, 116, 111, 110, 105, 99, 98, 117, 110, 100, 108, 101]
}

/// The value of the 8 little-endian bytes at `off`.
pub open spec fn le64_at(s: Seq<u8>, off: int) -> int {
    s[off] + s[off + 1] * 0x100 + s[off + 2] * 0x1_0000 + s[off + 3] * 0x100_0000
        + s[off + 4] * 0x1_0000_0000 + s[off + 5] * 0x100_0000_0000
        + s[off + 6] * 0x1_0000_0000_0000 + s[off + 7] * 0x100_0000_0000_0000
}

/// The value of the 4 little-endian bytes at `off`.
pub open spec fn le32_at(s: Seq<u8>, off: int) -> int {
    s[off] + s[off + 1] * 0x100 + s[off + 2] * 0x1_0000 + s[off + 3] * 0x100_0000
}

/// The signature bytes stand at the front of `s`.
pub open spec fn sig_ok(s: Seq<u8>) -> bool {
    s.len() >= 70 && s.subrange(0, 14) == signature()
}

/// `s` begins with a well-formed TTB v1 header.
pub open spec fn header_ok(s: Seq<u8>) -> bool {
    s.len() >= 70 && sig_ok(s) && le64_at(s, 14) == 1
}

impl TTBv1Header {
    /// The parsed header matches the bytes it came from.
    pub open spec fn parsed_from(self, s: Seq<u8>) -> bool {
        &&& self.index_start == le64_at(s, 22)
        &&& self.index_gzip_len == le32_at(s, 30)
        &&& self.index_real_len == le32_at(s, 34)
        &&& self.digest@ == s.subrange(38, 70)
    }

    /// Parse and validate the first 70 bytes of `bytes`.
    pub fn parse(bytes: &[u8]) -> (r: Result<TTBv1Header, HeaderError>)
        ensures
            bytes@.len() < 70 ==> r == Err::<TTBv1Header, HeaderError>(HeaderError::ShortRead),
            bytes@.len() >= 70 && !sig_ok(bytes@) ==> r == Err::<TTBv1Header, HeaderError>(
                HeaderError::NotABundle,
            ),
            sig_ok(bytes@) && le64_at(bytes@, 14) != 1 ==> r == Err::<TTBv1Header, HeaderError>(
                HeaderError::WrongVersion,
            ),
            header_ok(bytes@) ==> r is Ok && r->Ok_0.parsed_from(bytes@),
            r is Ok ==> header_ok(bytes@),
    {
        if bytes.len() < 70 {
            return Err(HeaderError::ShortRead);
        }
        let sig = sig_bytes();
        if !crate::bytes::bytes_eq(slice_subrange(bytes, 0, 14), sig.as_slice()) {
            assert(!sig_ok(bytes@));
            return Err(HeaderError::NotABundle);
        }
        assert(sig_ok(bytes@));
        let version = read_le64(bytes, 14);
        if version != 1 {
            return Err(HeaderError::WrongVersion);
        }
        let index_start = read_le64(bytes, 22);
        let index_gzip_len = read_le32(bytes, 30);
        let index_real_len = read_le32(bytes, 34);
        let digest = crate::bytes::copy_range(bytes, 38, 70);
        Ok(TTBv1Header { index_start, index_real_len, index_gzip_len, digest })
    }
}

/// The signature as a vector.
fn sig_bytes() -> (r: Vec<u8>)
    ensures
        r@ == signature(),
{
    let mut v: Vec<u8> = Vec::new();
    v.push(116);
    v.push(101);
    v.push(99);
    v.push(116);
    v.push(111);
    v.push(110);
    v.push(105);
    v.push(99);
    v.push(98);
    v.push(117);
    v.push(110);
    v.push(100);
    v.push(108);
    v.push(101);
    assert(v@ =~= signature());
    v
}

/// Read 8 little-endian bytes at `off`.
pub fn read_le64(bytes: &[u8], off: usize) -> (r: u64)
    requires
        off + 8 <= bytes@.len(),
    ensures
        r == le64_at(bytes@, off as int),
{
    let b0 = bytes[off] as u64;
    let b1 = bytes[off + 1] as u64;
    let b2 = bytes[off + 2] as u64;
    let b3 = bytes[off + 3] as u64;
    let b4 = bytes[off + 4] as u64;
    let b5 = bytes[off + 5] as u64;
    let b6 = bytes[off + 6] as u64;
    let b7 = bytes[off + 7] as u64;
    b0 + b1 * 0x100 + b2 * 0x1_0000 + b3 * 0x100_0000 + b4 * 0x1_0000_0000 + b5 * 0x100_0000_0000
        + b6 * 0x1_0000_0000_0000 + b7 * 0x100_0000_0000_0000
}

/// Read 4 little-endian bytes at `off`.
pub fn read_le32(bytes: &[u8], off: usize) -> (r: u32)
    requires
        off + 4 <= bytes@.len(),
    ensures
        r == le32_at(bytes@, off as int),
{
    let b0 = bytes[off] as u32;
    let b1 = bytes[off + 1] as u32;
    let b2 = bytes[off + 2] as u32;
    let b3 = bytes[off + 3] as u32;
    b0 + b1 * 0x100 + b2 * 0x1_0000 + b3 * 0x100_0000
}

} // verus!
