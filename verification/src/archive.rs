//! Unpacking archives, the way `tar -xf` does.
//!
//! The archive format is told by the file's extension. The compressed tar
//! formats are decompressed here, by the decoders of `flate2`, `bzip2`,
//! `xz2` and `zstd`; the unpacking into a directory is left to the caller.
//!
//! A decoder is read until it ends or fails, and both what it produced and
//! whether it failed are handed back: a tar reader stops at the archive's
//! end marker, so a failure after that point never reaches it.

use vstd::prelude::*;
use std::io::Read;
use crate::path::{
    extension_range,
    last_segment,
    lemma_extension_after_dot,
    DOT,
    SLASH,
    is_plain_component,
    lemma_join_file_name,
    spec_extension,
    spec_join,
};

verus! {

/// `std::io::Error`, the failure that the decoders report, carried through
/// opaquely.
#[verifier::external_type_specification]
#[verifier::external_body]
pub struct ExIoError(std::io::Error);

/// How the tar stream inside an archive is compressed.
#[derive(Clone, Copy, Debug, PartialEq, Eq, Structural)]
pub enum Compression {
    /// Not compressed.
    Plain,
    /// bzip2.
    Bzip2,
    /// xz.
    Xz,
    /// The legacy `.lzma` format, or xz.
    Lzma,
    /// gzip.
    Gzip,
    /// Zstandard.
    Zstd,
}

/// The kind of an archive.
#[derive(Clone, Copy, Debug, PartialEq, Eq, Structural)]
pub enum ArchiveFormat {
    /// A tar stream, compressed as given.
    Tar(Compression),
    /// A zip archive.
    Zip,
}

/// Why an archive could not be unpacked.
#[derive(Debug)]
pub enum UntarError {
    /// The path's extension names no known archive format.
    UnknownExtension(Vec<u8>),
    /// The compressed stream could not be decoded to its end.
    Decode(std::io::Error),
}

/// The archive format that an extension stands for.
pub open spec fn format_of_extension(ext: Seq<u8>) -> Option<ArchiveFormat> {
    if ext == seq![116u8, 97, 114] {
        // tar
        Some(ArchiveFormat::Tar(Compression::Plain))
    } else if ext == seq![98u8, 122, 50] || ext == seq![116u8, 98, 122, 50] || ext == seq![
        116u8,
        98,
        122,
    ] {
        // bz2, tbz2, tbz
        Some(ArchiveFormat::Tar(Compression::Bzip2))
    } else if ext == seq![120u8, 122] || ext == seq![116u8, 120, 122] {
        // xz, txz
        Some(ArchiveFormat::Tar(Compression::Xz))
    } else if ext == seq![108u8, 122, 109, 97] {
        // lzma
        Some(ArchiveFormat::Tar(Compression::Lzma))
    } else if ext == seq![103u8, 122] || ext == seq![116u8, 103, 122] {
        // gz, tgz
        Some(ArchiveFormat::Tar(Compression::Gzip))
    } else if ext == seq![122u8, 115, 116] || ext == seq![116u8, 122, 115, 116] {
        // zst, tzst
        Some(ArchiveFormat::Tar(Compression::Zstd))
    } else if ext == seq![122u8, 105, 112] {
        // zip
        Some(ArchiveFormat::Zip)
    } else {
        None
    }
}

/// The archive format of the file at `p`, by its extension.
pub open spec fn spec_archive_format(p: Seq<u8>) -> Option<ArchiveFormat> {
    match spec_extension(p) {
        Some(ext) => format_of_extension(ext),
        None => None,
    }
}

/// The format of an archive is told by its file name alone: the directory
/// it lies in does not matter.
pub proof fn lemma_format_by_name(dir: Seq<u8>, name: Seq<u8>)
    requires
        is_plain_component(name),
    ensures
        spec_archive_format(spec_join(dir, name)) == spec_archive_format(name),
{
    lemma_join_file_name(dir, name);
    lemma_join_file_name(Seq::<u8>::empty(), name);
    assert(spec_join(Seq::<u8>::empty(), name) == name);
}

/// The archive's file name, `b` followed by `.` and `ext`.
pub open spec fn with_ext(b: Seq<u8>, ext: Seq<u8>) -> Seq<u8> {
    b + seq![DOT] + ext
}

/// The format is read off the extension whatever the rest of the path is:
/// for any path `b` that ends in a name, `b.tar` is a plain tar archive,
/// `b.bz2`, `b.tbz2` and `b.tbz` are bzip2, `b.xz` and `b.txz` are xz,
/// `b.lzma` is legacy lzma, `b.gz` and `b.tgz` are gzip, `b.zst` and
/// `b.tzst` are Zstandard, `b.zip` is a zip archive, and `b.txt` is none.
pub proof fn lemma_formats_by_extension(b: Seq<u8>)
    requires
        b.len() > 0,
        b.last() != SLASH,
        last_segment(b) != seq![DOT],
    ensures
        spec_archive_format(with_ext(b, seq![116u8, 97, 114])) == Some(ArchiveFormat::Tar(Compression::Plain)),
        spec_archive_format(with_ext(b, seq![98u8, 122, 50])) == Some(ArchiveFormat::Tar(Compression::Bzip2)),
        spec_archive_format(with_ext(b, seq![116u8, 98, 122, 50])) == Some(ArchiveFormat::Tar(Compression::Bzip2)),
        spec_archive_format(with_ext(b, seq![116u8, 98, 122])) == Some(ArchiveFormat::Tar(Compression::Bzip2)),
        spec_archive_format(with_ext(b, seq![120u8, 122])) == Some(ArchiveFormat::Tar(Compression::Xz)),
        spec_archive_format(with_ext(b, seq![116u8, 120, 122])) == Some(ArchiveFormat::Tar(Compression::Xz)),
        spec_archive_format(with_ext(b, seq![108u8, 122, 109, 97])) == Some(ArchiveFormat::Tar(Compression::Lzma)),
        spec_archive_format(with_ext(b, seq![103u8, 122])) == Some(ArchiveFormat::Tar(Compression::Gzip)),
        spec_archive_format(with_ext(b, seq![116u8, 103, 122])) == Some(ArchiveFormat::Tar(Compression::Gzip)),
        spec_archive_format(with_ext(b, seq![122u8, 115, 116])) == Some(ArchiveFormat::Tar(Compression::Zstd)),
        spec_archive_format(with_ext(b, seq![116u8, 122, 115, 116])) == Some(ArchiveFormat::Tar(Compression::Zstd)),
        spec_archive_format(with_ext(b, seq![122u8, 105, 112])) == Some(ArchiveFormat::Zip),
        spec_archive_format(with_ext(b, seq![116u8, 120, 116])) is None,
{
    lemma_extension_after_dot(b, seq![116u8, 97, 114]);
    lemma_extension_after_dot(b, seq![98u8, 122, 50]);
    lemma_extension_after_dot(b, seq![116u8, 98, 122, 50]);
    lemma_extension_after_dot(b, seq![116u8, 98, 122]);
    lemma_extension_after_dot(b, seq![120u8, 122]);
    lemma_extension_after_dot(b, seq![116u8, 120, 122]);
    lemma_extension_after_dot(b, seq![108u8, 122, 109, 97]);
    lemma_extension_after_dot(b, seq![103u8, 122]);
    lemma_extension_after_dot(b, seq![116u8, 103, 122]);
    lemma_extension_after_dot(b, seq![122u8, 115, 116]);
    lemma_extension_after_dot(b, seq![116u8, 122, 115, 116]);
    lemma_extension_after_dot(b, seq![122u8, 105, 112]);
    lemma_extension_after_dot(b, seq![116u8, 120, 116]);
    assert(seq![116u8, 120, 116] != seq![116u8, 97, 114]) by {
        assert(seq![116u8, 120, 116][1] != seq![116u8, 97, 114][1]);
    }
    assert(seq![116u8, 120, 116] != seq![116u8, 98, 122]) by {
        assert(seq![116u8, 120, 116][1] != seq![116u8, 98, 122][1]);
    }
    assert(seq![116u8, 120, 116] != seq![116u8, 120, 122]) by {
        assert(seq![116u8, 120, 116][2] != seq![116u8, 120, 122][2]);
    }
    assert(seq![116u8, 120, 116] != seq![116u8, 103, 122]) by {
        assert(seq![116u8, 120, 116][1] != seq![116u8, 103, 122][1]);
    }
    assert(seq![116u8, 120, 116] != seq![98u8, 122, 50]) by {
        assert(seq![116u8, 120, 116][0] != seq![98u8, 122, 50][0]);
    }
    assert(seq![116u8, 120, 116] != seq![122u8, 115, 116]) by {
        assert(seq![116u8, 120, 116][0] != seq![122u8, 115, 116][0]);
    }
    assert(seq![116u8, 120, 116] != seq![122u8, 105, 112]) by {
        assert(seq![116u8, 120, 116][0] != seq![122u8, 105, 112][0]);
    }
}

/// Whether `v[s..e]` spells `lit`.
fn range_is(v: &[u8], s: usize, e: usize, lit: &[u8]) -> (b: bool)
    requires
        s <= e <= v@.len(),
    ensures
        b == (v@.subrange(s as int, e as int) == lit@),
{
    if e - s != lit.len() {
        return false;
    }
    let mut i: usize = 0;
    while i < lit.len()
        invariant
            s <= e <= v@.len(),
            e - s == lit@.len(),
            i <= lit@.len(),
            forall|j: int| 0 <= j < i ==> v@[s + j] == lit@[j],
        decreases lit@.len() - i,
    {
        if v[s + i] != lit[i] {
            assert(v@.subrange(s as int, e as int)[i as int] != lit@[i as int]);
            return false;
        }
        i += 1;
    }
    assert(v@.subrange(s as int, e as int) =~= lit@);
    true
}

/// The format of the archive at `path`, told by its extension: `.tar`;
/// `.tar.bz2`, `.tbz2` or `.tbz`; `.tar.xz` or `.txz`; `.tar.lzma`;
/// `.tar.gz` or `.tgz`; `.tar.zst` or `.tzst`; `.zip`. Any other extension,
/// or none, is refused.
pub fn archive_format(path: &[u8]) -> (r: Result<ArchiveFormat, UntarError>)
    ensures
        r is Ok <==> spec_archive_format(path@) is Some,
        r matches Ok(f) ==> spec_archive_format(path@) == Some(f),
        r matches Err(e) ==> (e matches UntarError::UnknownExtension(p) && p@ == path@),
{
    let found = match extension_range(path) {
        None => None,
        Some((s, e)) => {
            let tar = [116u8, 97, 114];
            let bz2 = [98u8, 122, 50];
            let tbz2 = [116u8, 98, 122, 50];
            let tbz = [116u8, 98, 122];
            let xz = [120u8, 122];
            let txz = [116u8, 120, 122];
            let lzma = [108u8, 122, 109, 97];
            let gz = [103u8, 122];
            let tgz = [116u8, 103, 122];
            let zst = [122u8, 115, 116];
            let tzst = [116u8, 122, 115, 116];
            let zip = [122u8, 105, 112];
            assert(tar@ == seq![116u8, 97, 114]);
            assert(bz2@ == seq![98u8, 122, 50]);
            assert(tbz2@ == seq![116u8, 98, 122, 50]);
            assert(tbz@ == seq![116u8, 98, 122]);
            assert(xz@ == seq![120u8, 122]);
            assert(txz@ == seq![116u8, 120, 122]);
            assert(lzma@ == seq![108u8, 122, 109, 97]);
            assert(gz@ == seq![103u8, 122]);
            assert(tgz@ == seq![116u8, 103, 122]);
            assert(zst@ == seq![122u8, 115, 116]);
            assert(tzst@ == seq![116u8, 122, 115, 116]);
            assert(zip@ == seq![122u8, 105, 112]);
            if range_is(path, s, e, &tar) {
                Some(ArchiveFormat::Tar(Compression::Plain))
            } else if range_is(path, s, e, &bz2) || range_is(path, s, e, &tbz2) || range_is(
                path,
                s,
                e,
                &tbz,
            ) {
                Some(ArchiveFormat::Tar(Compression::Bzip2))
            } else if range_is(path, s, e, &xz) || range_is(path, s, e, &txz) {
                Some(ArchiveFormat::Tar(Compression::Xz))
            } else if range_is(path, s, e, &lzma) {
                Some(ArchiveFormat::Tar(Compression::Lzma))
            } else if range_is(path, s, e, &gz) || range_is(path, s, e, &tgz) {
                Some(ArchiveFormat::Tar(Compression::Gzip))
            } else if range_is(path, s, e, &zst) || range_is(path, s, e, &tzst) {
                Some(ArchiveFormat::Tar(Compression::Zstd))
            } else if range_is(path, s, e, &zip) {
                Some(ArchiveFormat::Zip)
            } else {
                None
            }
        },
    };
    match found {
        Some(f) => Ok(f),
        None => Err(UntarError::UnknownExtension(vstd::slice::slice_to_vec(path))),
    }
}

/// What reading `data` to its end through `flate2::read::GzDecoder` gives:
/// the bytes produced before it stopped, and whether it stopped on an error.
pub uninterp spec fn gzip_decoded(data: Seq<u8>) -> (Seq<u8>, bool);

/// What reading `data` to its end through `bzip2::read::BzDecoder` gives:
/// the bytes produced before it stopped, and whether it stopped on an error.
pub uninterp spec fn bzip2_decoded(data: Seq<u8>) -> (Seq<u8>, bool);

/// What reading `data` to its end through `xz2::read::XzDecoder::new`
/// gives: the bytes produced before it stopped, and whether it stopped on an
/// error.
pub uninterp spec fn xz_decoded(data: Seq<u8>) -> (Seq<u8>, bool);

/// What reading `data` to its end through an `xz2::read::XzDecoder` over
/// `xz2::stream::Stream::new_auto_decoder` (which takes both the legacy
/// `.lzma` format and xz) gives: the bytes produced before it stopped, and
/// whether it stopped on an error.
pub uninterp spec fn lzma_decoded(data: Seq<u8>) -> (Seq<u8>, bool);

/// What reading `data` to its end through `zstd::Decoder::new` gives: the
/// bytes produced before it stopped, and whether it stopped on an error.
pub uninterp spec fn zstd_decoded(data: Seq<u8>) -> (Seq<u8>, bool);

/// Reads `data` to its end through `flate2::read::GzDecoder`. Trusted: a
/// slice never fails to be read, so what the decoder produces before it
/// stops, and whether it stops on an error, depend on `data` alone;
/// `gzip_decoded` names that. Which bytes those are is not stated.
#[verifier::external_body]
fn gzip_decode(data: &[u8]) -> (r: (Vec<u8>, Option<std::io::Error>))
    ensures
        r.0@ == gzip_decoded(data@).0,
        r.1 is Some <==> gzip_decoded(data@).1,
{
    let mut out = Vec::new();
    let failure = flate2::read::GzDecoder::new(data).read_to_end(&mut out).err();
    (out, failure)
}

/// Reads `data` to its end through `bzip2::read::BzDecoder`. Trusted: the
/// outcome depends on `data` alone, and `bzip2_decoded` names it; which
/// bytes come out is not stated.
#[verifier::external_body]
fn bzip2_decode(data: &[u8]) -> (r: (Vec<u8>, Option<std::io::Error>))
    ensures
        r.0@ == bzip2_decoded(data@).0,
        r.1 is Some <==> bzip2_decoded(data@).1,
{
    let mut out = Vec::new();
    let failure = bzip2::read::BzDecoder::new(data).read_to_end(&mut out).err();
    (out, failure)
}

/// Reads `data` to its end through `xz2::read::XzDecoder::new`. Trusted:
/// the outcome depends on `data` alone, and `xz_decoded` names it; which
/// bytes come out is not stated.
#[verifier::external_body]
fn xz_decode(data: &[u8]) -> (r: (Vec<u8>, Option<std::io::Error>))
    ensures
        r.0@ == xz_decoded(data@).0,
        r.1 is Some <==> xz_decoded(data@).1,
{
    let mut out = Vec::new();
    let failure = xz2::read::XzDecoder::new(data).read_to_end(&mut out).err();
    (out, failure)
}

/// Reads `data` to its end through an `xz2::read::XzDecoder` over
/// `xz2::stream::Stream::new_auto_decoder`, with no memory limit and no
/// flags, as `XzDecoder::new` sets up its xz-only decoder. Trusted: the
/// outcome depends on `data` alone, and `lzma_decoded` names it; which bytes
/// come out is not stated.
#[verifier::external_body]
fn lzma_decode(data: &[u8]) -> (r: (Vec<u8>, Option<std::io::Error>))
    ensures
        r.0@ == lzma_decoded(data@).0,
        r.1 is Some <==> lzma_decoded(data@).1,
{
    let mut out = Vec::new();
    let failure = match xz2::stream::Stream::new_auto_decoder(u64::MAX, 0) {
        Ok(stream) => xz2::read::XzDecoder::new_stream(data, stream).read_to_end(&mut out).err(),
        Err(e) => Some(std::io::Error::from(e)),
    };
    (out, failure)
}

/// Reads `data` to its end through `zstd::Decoder::new`. Trusted: the
/// outcome depends on `data` alone, and `zstd_decoded` names it; which bytes
/// come out is not stated.
#[verifier::external_body]
fn zstd_decode(data: &[u8]) -> (r: (Vec<u8>, Option<std::io::Error>))
    ensures
        r.0@ == zstd_decoded(data@).0,
        r.1 is Some <==> zstd_decoded(data@).1,
{
    let mut out = Vec::new();
    let failure = match zstd::Decoder::new(data) {
        Ok(mut decoder) => decoder.read_to_end(&mut out).err(),
        Err(e) => Some(e),
    };
    (out, failure)
}

/// The tar stream inside an archive compressed as `c`: the bytes decoded
/// before the decoder stopped, and whether it stopped on an error.
pub open spec fn spec_decoded(c: Compression, data: Seq<u8>) -> (Seq<u8>, bool) {
    match c {
        Compression::Plain => (data, false),
        Compression::Bzip2 => bzip2_decoded(data),
        Compression::Xz => xz_decoded(data),
        Compression::Lzma => lzma_decoded(data),
        Compression::Gzip => gzip_decoded(data),
        Compression::Zstd => zstd_decoded(data),
    }
}

/// A decompressed tar stream: the bytes decoded, and the failure the
/// decoder stopped on, if any, which comes after those bytes.
#[derive(Debug)]
pub struct Decoded {
    pub stream: Vec<u8>,
    pub failure: Option<UntarError>,
}

/// The tar stream inside the archive bytes `data`, compressed as `c`: the
/// bytes themselves when they are not compressed, else what the matching
/// decoder produces until it ends or fails, with its failure as
/// `UntarError::Decode`.
pub fn decompress(c: Compression, data: &[u8]) -> (r: Decoded)
    ensures
        r.stream@ == spec_decoded(c, data@).0,
        r.failure is Some <==> spec_decoded(c, data@).1,
        r.failure matches Some(e) ==> e is Decode,
        c == Compression::Plain ==> r.stream@ == data@ && r.failure is None,
{
    let (stream, failure) = match c {
        Compression::Plain => (vstd::slice::slice_to_vec(data), None),
        Compression::Bzip2 => bzip2_decode(data),
        Compression::Xz => xz_decode(data),
        Compression::Lzma => lzma_decode(data),
        Compression::Gzip => gzip_decode(data),
        Compression::Zstd => zstd_decode(data),
    };
    let failure = match failure {
        Some(e) => Some(UntarError::Decode(e)),
        None => None,
    };
    Decoded { stream, failure }
}

} // verus!
