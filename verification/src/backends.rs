//! The compression libraries behind the section codecs. Each item here hands
//! bytes to an outside crate and back; its contract is trusted, not proved.
//!
//! Outputs that take pages to define (a compressed stream) are named by spec
//! functions of their arguments; the one fact stated beside each compressor is
//! the libraries' documented promise that its decompressor gives back the input.

use std::io::{Read, Write};

use brotli::enc::backward_references::UnionHasher;
use brotli::enc::{
    compress_multi, Allocator, BrotliEncoderMaxCompressedSizeMulti, BrotliEncoderParams, Owned,
    SendAlloc, SliceWrapperMut, StandardAlloc,
};

use vstd::prelude::*;

verus! {

#[verifier::external_type_specification]
#[verifier::external_body]
pub struct ExInflateError(miniz_oxide::inflate::DecompressError);

#[verifier::external_type_specification]
#[verifier::external_body]
pub struct ExLz4DecodeError(lz4_flex::block::DecompressError);

#[verifier::external_type_specification]
#[verifier::external_body]
pub struct ExIoError(std::io::Error);

#[verifier::external_type_specification]
#[verifier::external_body]
pub struct ExBrotliThreadError(brotli::enc::BrotliEncoderThreadError);

/// The raw DEFLATE stream that `miniz_oxide::deflate::compress_to_vec` produces for
/// `data` at `level`.
pub uninterp spec fn deflate_compressed(data: Seq<u8>, level: u8) -> Seq<u8>;

/// The bytes that `miniz_oxide::inflate::decompress_to_vec` inflates from `data`,
/// or `None` when it reports an error.
pub uninterp spec fn deflate_decoded(data: Seq<u8>) -> Option<Seq<u8>>;

/// The LZ4 block that `lz4_flex::block::compress` produces for `data`.
pub uninterp spec fn lz4_compressed(data: Seq<u8>) -> Seq<u8>;

/// The bytes that `lz4_flex::block::decompress` decodes from `data` given
/// `min_size`, or `None` when it reports an error.
pub uninterp spec fn lz4_decoded(data: Seq<u8>, min_size: nat) -> Option<Seq<u8>>;

/// The Brotli stream that a `brotli::CompressorWriter` writes for `data` at
/// `quality` (window 22), or `None` when writing reports an error.
pub uninterp spec fn brotli_compressed(data: Seq<u8>, quality: u8) -> Option<Seq<u8>>;

/// The bytes that a `brotli::Decompressor` reads from `data`, or `None` when it
/// reports an error.
pub uninterp spec fn brotli_decoded(data: Seq<u8>) -> Option<Seq<u8>>;

/// The Brotli stream that `brotli::enc::compress_multi` writes for `data` at
/// `quality` (window 22) split over `threads` workers, or `None` when it reports
/// an error.
pub uninterp spec fn brotli_compressed_multi(data: Seq<u8>, quality: u8, threads: nat) -> Option<
    Seq<u8>,
>;

/// The zstd frame that `CCtx::compress2` writes for `data` into a buffer of
/// `capacity` bytes, on a context set to `level`, `workers` worker threads and
/// job size `job_size` (0: zstd's default), or `None` when a call returns an error
/// code.
pub uninterp spec fn zstd_compressed_mt(
    data: Seq<u8>,
    level: i32,
    workers: u32,
    job_size: u32,
    capacity: nat,
) -> Option<Seq<u8>>;

/// `ZSTD_MAX_INPUT_SIZE` of zstd.h: the largest input zstd sizes a bound for.
pub open spec fn zstd_max_input() -> nat {
    if usize::BITS == 64 {
        0xFF00FF00FF00FF00
    } else {
        0xFF00FF00
    }
}

/// What `zstd_safe::compress_bound(n)` returns: zstd's `ZSTD_compressBound`, that is
/// `n + n / 256`, plus `(128 KiB - n) / 2048` below 128 KiB; from
/// [`zstd_max_input`] on, the error code `srcSize_wrong` (72) as a `size_t`.
pub open spec fn zstd_bound(n: nat) -> nat {
    if n >= zstd_max_input() {
        (usize::MAX - 71) as nat
    } else {
        n + n / 256 + if n < 0x20000 {
            ((0x20000 - n) / 2048) as nat
        } else {
            0nat
        }
    }
}

/// The zstd frame that `zstd_safe::compress` writes for `data` at `level` into a
/// buffer of `capacity` bytes, or `None` when it returns an error code.
pub uninterp spec fn zstd_compressed(data: Seq<u8>, level: i32, capacity: nat) -> Option<Seq<u8>>;

/// The bytes that `zstd_safe::decompress` writes for `data` into a buffer of
/// `capacity` bytes, or `None` when it returns an error code.
pub uninterp spec fn zstd_decoded(data: Seq<u8>, capacity: nat) -> Option<Seq<u8>>;

/// Calls `miniz_oxide::deflate::compress_to_vec`. Trusted: the result is the named
/// stream, and `miniz_oxide::inflate::decompress_to_vec` inflates it back to `data`.
#[verifier::external_body]
pub(crate) fn deflate_compress(data: &[u8], level: u8) -> (r: Vec<u8>)
    ensures
        r@ == deflate_compressed(data@, level),
        deflate_decoded(r@) == Some(data@),
{
    miniz_oxide::deflate::compress_to_vec(data, level)
}

/// Calls `miniz_oxide::inflate::decompress_to_vec`. Trusted: `Ok` carries the named
/// bytes, `Err` comes exactly when the name is `None`.
#[verifier::external_body]
pub(crate) fn deflate_decompress(data: &[u8]) -> (r: Result<
    Vec<u8>,
    miniz_oxide::inflate::DecompressError,
>)
    ensures
        match r {
            Ok(v) => deflate_decoded(data@) == Some(v@),
            Err(_) => deflate_decoded(data@) is None,
        },
{
    miniz_oxide::inflate::decompress_to_vec(data)
}

/// Calls `lz4_flex::block::compress`. Trusted: the result is the named block, and
/// `lz4_flex::block::decompress` with the input length decodes it back to `data`.
#[verifier::external_body]
pub(crate) fn lz4_compress(data: &[u8]) -> (r: Vec<u8>)
    ensures
        r@ == lz4_compressed(data@),
        lz4_decoded(r@, data@.len()) == Some(data@),
{
    lz4_flex::block::compress(data)
}

/// Calls `lz4_flex::block::decompress`. Trusted: `Ok` carries the named bytes, `Err`
/// comes exactly when the name is `None`.
#[verifier::external_body]
pub(crate) fn lz4_decompress(data: &[u8], min_size: usize) -> (r: Result<
    Vec<u8>,
    lz4_flex::block::DecompressError,
>)
    ensures
        match r {
            Ok(v) => lz4_decoded(data@, min_size as nat) == Some(v@),
            Err(_) => lz4_decoded(data@, min_size as nat) is None,
        },
{
    lz4_flex::block::decompress(data, min_size)
}

/// Writes `data` through a `brotli::CompressorWriter` (4096-byte buffer, quality
/// `quality`, window 22) into a new vector, finishing the stream when the writer
/// is dropped. Trusted: `Ok` carries the named stream and a
/// `brotli::Decompressor` reads `data` back from it; `Err` comes exactly when the
/// name is `None`.
#[verifier::external_body]
pub(crate) fn brotli_compress(data: &[u8], quality: u8) -> (r: Result<Vec<u8>, std::io::Error>)
    ensures
        match r {
            Ok(v) => brotli_compressed(data@, quality) == Some(v@) && brotli_decoded(v@) == Some(
                data@,
            ),
            Err(_) => brotli_compressed(data@, quality) is None,
        },
{
    let mut out = Vec::new();
    {
        let mut w = brotli::CompressorWriter::new(&mut out, 4096, quality as u32, 22);
        w.write_all(data)?;
    }
    Ok(out)
}

/// Reads `data` to its end through a `brotli::Decompressor` (4096-byte buffer).
/// Trusted: `Ok` carries the named bytes, `Err` comes exactly when the name is
/// `None`.
#[verifier::external_body]
pub(crate) fn brotli_decompress(data: &[u8]) -> (r: Result<Vec<u8>, std::io::Error>)
    ensures
        match r {
            Ok(v) => brotli_decoded(data@) == Some(v@),
            Err(_) => brotli_decoded(data@) is None,
        },
{
    let mut out = Vec::new();
    brotli::Decompressor::new(data, 4096).read_to_end(&mut out).map(|_| out)
}

/// Calls `brotli::enc::compress_multi` with quality `quality`, window 22 and
/// `threads` worker allocators, into a buffer of
/// `BrotliEncoderMaxCompressedSizeMulti` bytes. Trusted: `Ok` carries the named
/// stream and a `brotli::Decompressor` reads `data` back from it; `Err` comes
/// exactly when the name is `None`.
#[verifier::external_body]
pub(crate) fn brotli_compress_multi(data: &[u8], quality: u8, threads: usize) -> (r: Result<
    Vec<u8>,
    brotli::enc::BrotliEncoderThreadError,
>)
    requires
        1 <= threads <= 16,
    ensures
        match r {
            Ok(v) => brotli_compressed_multi(data@, quality, threads as nat) == Some(v@)
                && brotli_decoded(v@) == Some(data@),
            Err(_) => brotli_compressed_multi(data@, quality, threads as nat) is None,
        },
{
    let params = BrotliEncoderParams { quality: quality as i32, lgwin: 22, ..Default::default() };
    let mut input = <StandardAlloc as Allocator<u8>>::alloc_cell(&mut StandardAlloc::default(), data.len());
    input.slice_mut().copy_from_slice(data);
    let mut allocs: Vec<_> = (0..threads)
        .map(|_| SendAlloc::new(StandardAlloc::default(), UnionHasher::Uninit))
        .collect();
    let mut out = vec![0u8; BrotliEncoderMaxCompressedSizeMulti(data.len(), threads)];
    let n = compress_multi(&params, &mut Owned::new(input), &mut out, &mut allocs[..])?;
    out.truncate(n);
    Ok(out)
}

/// Compresses `src` into `dst` with a `zstd_safe::CCtx` set to `level`,
/// `workers` worker threads and job size `job_size` (`CCtx::create`,
/// `set_parameter`, `compress2`). Trusted: `dst` keeps its length; `Ok(n)` means
/// its first `n` bytes are the named frame and `zstd_safe::decompress` into a
/// buffer of the input's length gives `src` back; `Err` comes exactly when the
/// name is `None`. The bytes of `dst` after an error are left unsaid.
#[verifier::external_body]
pub(crate) fn zstd_compress_mt_into(
    dst: &mut Vec<u8>,
    src: &[u8],
    level: i32,
    workers: u32,
    job_size: u32,
) -> (r: Result<usize, usize>)
    ensures
        final(dst)@.len() == old(dst)@.len(),
        match r {
            Ok(n) => n <= old(dst)@.len() && zstd_compressed_mt(
                src@,
                level,
                workers,
                job_size,
                old(dst)@.len(),
            ) == Some(final(dst)@.take(n as int)) && zstd_decoded(final(dst)@.take(n as int), src@.len())
                == Some(src@),
            Err(_) => zstd_compressed_mt(src@, level, workers, job_size, old(dst)@.len()) is None,
        },
{
    let mut cctx = zstd_safe::CCtx::create();
    cctx.set_parameter(zstd_safe::CParameter::CompressionLevel(level))?;
    cctx.set_parameter(zstd_safe::CParameter::NbWorkers(workers))?;
    cctx.set_parameter(zstd_safe::CParameter::JobSize(job_size))?;
    cctx.compress2(dst.as_mut_slice(), src)
}

/// What `zstd_safe::compress_bound(n)` returns (zstd's `ZSTD_compressBound`),
/// computed by the formula zstd.h defines it by, [`zstd_bound`].
pub(crate) fn zstd_compress_bound(n: usize) -> (r: usize)
    ensures
        r == zstd_bound(n as nat),
{
    let max_input: u64 = if usize::BITS == 64 {
        0xFF00FF00FF00FF00
    } else {
        0xFF00FF00
    };
    if n as u64 >= max_input {
        return usize::MAX - 71;
    }
    let margin: usize = if n < 0x20000 {
        (0x20000 - n) / 2048
    } else {
        0
    };
    assert(n + n / 256 + margin <= usize::MAX) by {
        if usize::BITS == 64 {
            assert(usize::MAX == 0xFFFF_FFFF_FFFF_FFFF);
        } else {
            assert(usize::MAX == 0xFFFF_FFFF);
        }
    }
    n + n / 256 + margin
}

/// Calls `zstd_safe::compress` into `dst`. Trusted: `dst` keeps its length; `Ok(n)`
/// means its first `n` bytes are the named frame and `zstd_safe::decompress` into a
/// buffer of the input's length gives `src` back; `Err` comes exactly when the name
/// is `None`. The bytes of `dst` after an error are left unsaid.
#[verifier::external_body]
pub(crate) fn zstd_compress_into(dst: &mut Vec<u8>, src: &[u8], level: i32) -> (r: Result<
    usize,
    usize,
>)
    ensures
        final(dst)@.len() == old(dst)@.len(),
        match r {
            Ok(n) => n <= old(dst)@.len() && zstd_compressed(src@, level, old(dst)@.len()) == Some(
                final(dst)@.take(n as int),
            ) && zstd_decoded(final(dst)@.take(n as int), src@.len()) == Some(src@),
            Err(_) => zstd_compressed(src@, level, old(dst)@.len()) is None,
        },
{
    zstd_safe::compress(dst.as_mut_slice(), src, level)
}

/// Calls `zstd_safe::decompress` into `dst`. Trusted: `dst` keeps its length; `Ok(n)`
/// means its first `n` bytes are the named output; `Err` comes exactly when the name
/// is `None`. The bytes of `dst` after an error are left unsaid.
#[verifier::external_body]
pub(crate) fn zstd_decompress_into(dst: &mut Vec<u8>, src: &[u8]) -> (r: Result<usize, usize>)
    ensures
        final(dst)@.len() == old(dst)@.len(),
        match r {
            Ok(n) => n <= old(dst)@.len() && zstd_decoded(src@, old(dst)@.len()) == Some(
                final(dst)@.take(n as int),
            ),
            Err(_) => zstd_decoded(src@, old(dst)@.len()) is None,
        },
{
    zstd_safe::decompress(dst.as_mut_slice(), src)
}

} // verus!
