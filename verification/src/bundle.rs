//! A TTB v1 bundle held in memory: header access, lazy index loading, and
//! payload lookup with decompression.

use crate::gz::gunzip_of;
use crate::header::{header_ok, le32_at, le64_at, sig_ok, HeaderError, TTBv1Header};
use crate::index::{index_parse, search_spec, sorted_by_path, FileInfoV, IndexError, TTBFileIndex};
use vstd::prelude::*;
use vstd::slice::slice_subrange;

verus! {

/// Why a bundle operation failed.
#[derive(Clone, Copy, Debug, PartialEq, Eq, Structural)]
pub enum BundleError {
    /// The header was rejected.
    Header(HeaderError),
    /// A gzip stream would not decompress.
    Decode,
    /// The index body was rejected.
    Index(IndexError),
}

/// The outcome of opening a name against the bundle.
#[derive(Debug, PartialEq, Eq)]
pub enum OpenResult {
    /// The decompressed payload.
    Found(Vec<u8>),
    /// No rule matched the name.
    NotAvailable,
    /// The bundle itself failed.
    Failed(BundleError),
}

/// The error the header parser reports on `s`, when it reports one.
pub open spec fn header_err(s: Seq<u8>) -> HeaderError {
    if s.len() < 70 {
        HeaderError::ShortRead
    } else if !sig_ok(s) {
        HeaderError::NotABundle
    } else {
        HeaderError::WrongVersion
    }
}

/// The bytes of `data` from `start` for `len`, both clamped to the data
/// that is there, as a bounded read from a seekable stream yields them.
pub open spec fn clamp_range(data: Seq<u8>, start: int, len: int) -> Seq<u8> {
    let lo = if start <= data.len() {
        start
    } else {
        data.len() as int
    };
    let hi = if start + len <= data.len() {
        start + len
    } else {
        data.len() as int
    };
    data.subrange(lo, hi)
}

/// Where the compressed index lies: at `index_start`, for the length the
/// header's fourth field gives, which the reader takes as the compressed
/// length of the index region.
pub open spec fn index_region(data: Seq<u8>) -> Seq<u8> {
    clamp_range(data, le64_at(data, 22), le32_at(data, 34))
}

/// The decompressed index body, if the region decompresses.
pub open spec fn index_body(data: Seq<u8>) -> Option<Seq<u8>> {
    gunzip_of(index_region(data))
}

/// The bundle is usable for lookups once its index is loaded: either it
/// already was, or the header, the index region and the index body are all
/// well formed.
pub open spec fn index_available(b: Ttbv1FsBundle) -> bool {
    ||| b.index.content@.len() > 0
    ||| (header_ok(b.data@) && index_body(b.data@) is Some && index_parse(
        index_body(b.data@)->0,
    ) is Some)
}

/// A bundle: the raw bytes of the archive and the index parsed out of it.
/// The index starts empty and is filled on the first lookup.
pub struct Ttbv1FsBundle {
    pub data: Vec<u8>,
    pub index: TTBFileIndex,
}

/// Read and decompress the region an entry describes.
fn read_fileinfo(start: u64, gzip_len: u32, data: &[u8]) -> (r: Option<Vec<u8>>)
    ensures
        r is Some <==> gunzip_of(clamp_range(data@, start as int, gzip_len as int)) is Some,
        r is Some ==> r->0@ == gunzip_of(clamp_range(data@, start as int, gzip_len as int))->0,
{
    let dlen = data.len();
    let lo: usize = if start <= dlen as u64 {
        start as usize
    } else {
        dlen
    };
    let hi: usize = match start.checked_add(gzip_len as u64) {
        Some(e) => if e <= dlen as u64 {
            e as usize
        } else {
            dlen
        },
        None => dlen,
    };
    let slice = slice_subrange(data, lo, hi);
    proof {
        assert(slice@ =~= clamp_range(data@, start as int, gzip_len as int));
    }
    crate::gz::gunzip(slice)
}

impl Ttbv1FsBundle {
    /// Wrap the raw bytes of a bundle file; the index is loaded lazily.
    pub fn new(data: Vec<u8>) -> (r: Self)
        ensures
            r.data == data,
            r.index.wf(),
            r.index.content@.len() == 0,
            r.index.search@.len() == 0,
    {
        Ttbv1FsBundle { data, index: TTBFileIndex::new() }
    }

    /// Parse the 70-byte header at the front of the bundle.
    fn get_header(&self) -> (r: Result<TTBv1Header, HeaderError>)
        ensures
            r is Ok <==> header_ok(self.data@),
            r is Err ==> r->Err_0 == header_err(self.data@),
            r is Ok ==> r->Ok_0.parsed_from(self.data@),
    {
        TTBv1Header::parse(self.data.as_slice())
    }

    /// Decompress the index region and hand it to the index parser.
    fn fill_index(&mut self) -> (r: Result<(), BundleError>)
        requires
            old(self).index.wf(),
        ensures
            final(self).data == old(self).data,
            final(self).index.wf(),
            !header_ok(old(self).data@) ==> r == Err::<(), BundleError>(
                BundleError::Header(header_err(old(self).data@)),
            ) && final(self).index == old(self).index,
            header_ok(old(self).data@) && index_body(old(self).data@) is None ==> r == Err::<
                (),
                BundleError,
            >(BundleError::Decode) && final(self).index == old(self).index,
            header_ok(old(self).data@) && index_body(old(self).data@) is Some ==> {
                let body = index_body(old(self).data@)->0;
                match index_parse(body) {
                    None => r == Err::<(), BundleError>(BundleError::Index(IndexError::Malformed))
                        && final(self).index.content@.len() == 0,
                    Some(px) => r is Ok && final(self).index.search.deep_view() == px.rules
                        && final(self).index.content.deep_view().to_multiset()
                        == px.content.to_multiset() && sorted_by_path(
                        final(self).index.content.deep_view(),
                    ),
                }
            },
    {
        let header = match self.get_header() {
            Ok(h) => h,
            Err(e) => {
                return Err(BundleError::Header(e));
            },
        };
        // the synthetic index descriptor mirrors the header with its two
        // length fields interchanged, as the on-disk convention has it
        let body = match read_fileinfo(header.index_start, header.index_real_len,
            self.data.as_slice()) {
            Some(b) => b,
            None => {
                return Err(BundleError::Decode);
            },
        };
        match self.index.initialize(body.as_slice()) {
            Ok(()) => Ok(()),
            Err(e) => Err(BundleError::Index(e)),
        }
    }

    /// Look up `name` and return its decompressed payload. The index is
    /// loaded first if it is still empty; a name no rule matches is
    /// `NotAvailable`.
    pub fn input_open_name(&mut self, name: &[u8]) -> (r: OpenResult)
        requires
            old(self).index.wf(),
        ensures
            final(self).data == old(self).data,
            final(self).index.wf(),
            old(self).index.content@.len() == 0 && !header_ok(old(self).data@) ==> r
                == OpenResult::Failed(BundleError::Header(header_err(old(self).data@))),
            old(self).index.content@.len() == 0 && header_ok(old(self).data@) && index_body(
                old(self).data@,
            ) is None ==> r == OpenResult::Failed(BundleError::Decode),
            old(self).index.content@.len() == 0 && header_ok(old(self).data@) && index_body(
                old(self).data@,
            ) is Some && index_parse(index_body(old(self).data@)->0) is None ==> r
                == OpenResult::Failed(BundleError::Index(IndexError::Malformed)),
            old(self).index.content@.len() > 0 ==> final(self).index.content == old(
                self,
            ).index.content && final(self).index.search == old(self).index.search,
            index_available(*old(self)) ==> {
                let cv = final(self).index.content.deep_view();
                let rv = final(self).index.search.deep_view();
                match search_spec(cv, rv, name@) {
                    None => r == OpenResult::NotAvailable,
                    Some(info) => {
                        let payload = gunzip_of(
                            clamp_range(old(self).data@, info.start as int, info.gzip_len as int),
                        );
                        match payload {
                            Some(b) => r matches OpenResult::Found(v) && v@ == b,
                            None => r == OpenResult::Failed(BundleError::Decode),
                        }
                    },
                }
            },
    {
        if self.index.len() == 0 {
            match self.fill_index() {
                Err(e) => {
                    return OpenResult::Failed(e);
                },
                Ok(()) => {},
            }
        }
        let info = match self.index.search(name) {
            None => {
                return OpenResult::NotAvailable;
            },
            Some(s) => s,
        };
        match read_fileinfo(info.start, info.gzip_len, self.data.as_slice()) {
            Some(b) => OpenResult::Found(b),
            None => OpenResult::Failed(BundleError::Decode),
        }
    }

    /// The paths of every indexed file, in table order.
    pub fn all_files(&self) -> (r: Vec<Vec<u8>>)
        ensures
            r.deep_view() == self.index.content.deep_view().map_values(|i: FileInfoV| i.path),
    {
        broadcast use crate::bytes::lemma_vec_u8_deep_view;

        let ghost cv = self.index.content.deep_view();
        let mut out: Vec<Vec<u8>> = Vec::new();
        let mut i: usize = 0;
        while i < self.index.content.len()
            invariant
                i <= cv.len(),
                cv == self.index.content.deep_view(),
                out.deep_view() =~= cv.take(i as int).map_values(|x: FileInfoV| x.path),
            decreases cv.len() - i,
        {
            let ghost pre = out.deep_view();
            let p = crate::bytes::copy_bytes(self.index.content[i].path.as_slice());
            out.push(p);
            proof {
                assert(out.deep_view() =~~= pre.push(cv[i as int].path));
                assert(cv.take(i + 1).map_values(|x: FileInfoV| x.path) =~= cv.take(
                    i as int,
                ).map_values(|x: FileInfoV| x.path).push(cv[i as int].path));
            }
            i += 1;
        }
        proof {
            assert(cv.take(cv.len() as int) =~= cv);
        }
        out
    }

    /// The 32 digest bytes the header carries.
    pub fn get_digest(&self) -> (r: Result<Vec<u8>, HeaderError>)
        ensures
            r is Ok <==> header_ok(self.data@),
            r is Err ==> r->Err_0 == header_err(self.data@),
            r is Ok ==> r->Ok_0@ == self.data@.subrange(38, 70),
    {
        match self.get_header() {
            Ok(h) => Ok(h.digest),
            Err(e) => Err(e),
        }
    }
}

} // verus!
