use dif_core::codec::{compress, compress_section, decompress, decompress_section, Codec, CodecId, Method};
use dif_core::error::DifError;

fn sample_bytes() -> Vec<u8> {
    let mut v = Vec::new();
    for i in 0..4000u32 {
        v.push((i % 7) as u8);
    }
    v
}

#[test]
fn unavailable_codec_backends_error() {
    let data = b"some bytes that will not actually be compressed";
    assert!(compress(Method::Lzav, 1, data, 0).is_err());
    assert!(decompress(Method::Lzav, data, data.len()).is_err());
    assert!(compress(Method::Bsc, 2, data, 0).is_err());
    assert!(decompress(Method::Bsc, data, data.len()).is_err());
}

#[test]
fn every_available_family_roundtrips_and_compresses() {
    let raw = sample_bytes();
    for (name, shrinks) in [
        ("store", false),
        ("deflate", true),
        ("libdeflate-1", true),
        ("brotli-0", true),
        ("brotli-11", true),
        ("zstd-3", true),
        ("zstd--7", true),
        ("zstd-22", true),
        ("lz4", true),
        ("lz4-hc12", true),
    ] {
        let c = Codec::parse(name).unwrap();
        let blob = compress_section(c, &raw, 0).unwrap();
        if shrinks {
            assert!(blob.len() < raw.len() / 2, "{name} should shrink repetitive input");
        } else {
            assert_eq!(blob, raw);
        }
        let back = decompress_section(c, &blob, raw.len()).unwrap();
        assert_eq!(back, raw, "{name}");
    }
}

#[test]
fn store_needs_the_whole_raw_length() {
    assert_eq!(decompress(Method::Store, &[1, 2, 3], 4), Err(DifError::UnexpectedEof));
    assert_eq!(decompress(Method::Store, &[1, 2, 3], 2), Ok(vec![1, 2]));
}

#[test]
fn corrupt_streams_fail_cleanly() {
    let junk = [0xFFu8; 32];
    for m in [Method::Deflate, Method::Zstd, Method::Lz4] {
        assert_eq!(decompress(m, &junk, 64), Err(DifError::CompressionFailed), "{m:?}");
    }
}

#[test]
fn unknown_codec_bytes_are_refused() {
    for c in [0x01u8, 0x0F, 0x1C, 0x33, 0x62, 0x70, 0xFF] {
        assert_eq!(compress_section(Codec(c), &[1, 2, 3], 0), Err(DifError::BadCodec(c)));
        assert_eq!(decompress_section(Codec(c), &[1, 2, 3], 3), Err(DifError::BadCodec(c)));
    }
}

#[test]
fn parse_defaults_aliases_and_rejections() {
    assert_eq!(Codec::parse("deflate").unwrap(), Codec::new(CodecId::Deflate, 5));
    assert_eq!(Codec::parse("libdeflate-6").unwrap(), Codec::new(CodecId::Deflate, 5));
    assert_eq!(Codec::parse("brotli").unwrap(), Codec::new(CodecId::Brotli, 5));
    assert_eq!(Codec::parse("zstd").unwrap(), Codec::new(CodecId::Zstd, 6));
    assert_eq!(Codec::parse("lz4").unwrap(), Codec::new(CodecId::Lz4, 9));
    assert_eq!(Codec::parse("lz4-hc9").unwrap(), Codec::new(CodecId::Lz4, 13));
    assert_eq!(Codec::parse("lz4-fast512").unwrap(), Codec::new(CodecId::Lz4, 0));
    assert_eq!(Codec::parse("lz4--2").unwrap(), Codec::new(CodecId::Lz4, 8));
    assert_eq!(Codec::parse("lzav-2").unwrap(), Codec::new(CodecId::Lzav, 1));
    assert_eq!(Codec::parse("bsc").unwrap(), Codec::new(CodecId::Bsc, 1));
    assert_eq!(Codec::parse("zstd-+3").unwrap(), Codec::new(CodecId::Zstd, 6));
    let bad = Err(DifError::Invalid("unknown codec variant string"));
    for name in ["", "zstd-4", "zstd-", "zstd-3x", "Zstd-3", "lz4-fast", "lz4-fast-1", "deflate-0",
        "store-0", "zstd-99999999999", "lz4-fast2147483648", "common", "-3"] {
        assert_eq!(Codec::parse(name), bad, "{name}");
    }
}

#[test]
fn codec_byte_fields() {
    let c = Codec::new(CodecId::Zstd, 6);
    assert_eq!(c, Codec(0x46));
    assert_eq!(c.family(), 4);
    assert_eq!(c.level_index(), 6);
    assert_eq!(Codec::store(), Codec(0));
    assert_eq!(Codec::new(CodecId::Lz4, 0x1F), Codec(0x5F));
}

#[test]
fn incompressible_input_still_fits_its_output_buffer() {
    // Distinct bytes do not shrink; the zstd output buffer must be sized by the
    // library's bound, not by the input length.
    let raw: Vec<u8> = (0u8..=255).rev().collect();
    for name in ["zstd-3", "zstd-22", "lz4", "deflate", "brotli-5"] {
        let c = Codec::parse(name).unwrap();
        let blob = compress_section(c, &raw, 0).unwrap();
        assert_eq!(decompress_section(c, &blob, raw.len()).unwrap(), raw, "{name}");
    }
    let one = [42u8];
    let c = Codec::parse("zstd-3").unwrap();
    let blob = compress_section(c, &one, 0).unwrap();
    assert!(blob.len() > one.len());
    assert_eq!(decompress_section(c, &blob, 1).unwrap(), vec![42]);
}

#[test]
fn every_lz4_hc_level_is_accepted() {
    let stored = [(2, 10), (3, 10), (4, 11), (5, 11), (6, 12), (7, 12), (8, 12), (9, 13), (10, 14), (11, 14), (12, 15)];
    for (hc, idx) in stored {
        let name = format!("lz4-hc{hc}");
        assert_eq!(Codec::parse(&name).unwrap(), Codec::new(CodecId::Lz4, idx), "{name}");
    }
    assert!(Codec::parse("lz4-hc1").is_err());
    assert!(Codec::parse("lz4-hc13").is_err());
}

#[test]
fn multithreaded_sections_roundtrip() {
    let raw = sample_bytes();
    for name in ["zstd-3", "zstd-22", "brotli-10", "brotli-11", "brotli-5", "deflate", "lz4"] {
        let c = Codec::parse(name).unwrap();
        for workers in [2u32, 4, 40] {
            let blob = compress_section(c, &raw, workers).unwrap();
            assert_eq!(decompress_section(c, &blob, raw.len()).unwrap(), raw, "{name} x{workers}");
        }
    }
}
