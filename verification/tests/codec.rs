use dif_core::abilities;
use dif_core::codec::{
    compress_frames, decompress_section, from_dif, from_dif_workers, from_difr, split_factor, to_dif,
    to_dif_workers, to_difr, Codec, CodecId,
};
use dif_core::container::{ColorDepth, DifImage, Frame, IndexWidth, Rgba, Theme, ThemeTag};
use dif_core::error::DifError;
use dif_core::format::{read_frame_bitmap, Header};

fn sample(depth: ColorDepth, iw: IndexWidth) -> DifImage {
    let maxc = if depth == ColorDepth::Rgba8 { 255 } else { 60000 };
    let light = vec![Rgba::new(maxc, maxc, maxc, maxc), Rgba::new(0, 0, 0, maxc)];
    let dark = vec![Rgba::new(0, 0, 0, maxc), Rgba::new(maxc, maxc, maxc, maxc)];
    DifImage {
        width: 4,
        height: 4,
        color_depth: depth,
        index_width: iw,
        themes: vec![
            Theme { abilities: abilities::LIGHT, base_color: [255, 255, 255] },
            Theme { abilities: abilities::DARK, base_color: [0, 0, 0] },
        ],
        palettes: vec![light, dark],
        frames: vec![Frame {
            delay_us: 0,
            indices: vec![0, 1, 1, 0, 1, 0, 0, 1, 0, 1, 1, 0, 1, 0, 0, 1],
        }],
        replay_count: 1,
    }
}

fn multi(n: usize, side: u32) -> DifImage {
    let mut img = sample(ColorDepth::Rgba8, IndexWidth::Bit8);
    img.width = side;
    img.height = side;
    let px = (side * side) as usize;
    img.frames = (0..n)
        .map(|f| Frame {
            delay_us: (f as u32) * 10,
            indices: (0..px).map(|i| ((i + f) % 2) as u64).collect(),
        })
        .collect();
    img
}

#[test]
fn fewer_frames_than_workers_plans_split_branch() {
    let mut img = sample(ColorDepth::Rgba8, IndexWidth::Bit8);
    img.frames = vec![
        Frame { delay_us: 0, indices: vec![0u64; 16] },
        Frame { delay_us: 0, indices: vec![1u64; 16] },
    ];
    let bytes = to_dif_workers(&img, Codec::store(), Codec::store(), Codec::store(), 8).unwrap();
    assert_eq!(from_dif(&bytes).unwrap(), img);
}

#[test]
fn difr_roundtrip_all_combos() {
    for depth in [ColorDepth::Rgba8, ColorDepth::Rgba16] {
        for iw in [IndexWidth::Bit8, IndexWidth::Bit16] {
            let img = sample(depth, iw);
            let bytes = to_difr(&img).unwrap();
            assert_eq!(&bytes[..5], b"DIFR3");
            let back = from_difr(&bytes).unwrap();
            assert_eq!(img, back, "depth {depth:?} width {iw:?}");
        }
    }
}

#[test]
fn dif_roundtrip_codec_matrix() {
    let img = sample(ColorDepth::Rgba8, IndexWidth::Bit8);
    let codecs = vec!["store", "deflate", "lz4", "brotli-5", "zstd-3"];
    for name in codecs {
        let c = Codec::parse(name).unwrap();
        for (o, p, f) in [(c, Codec::store(), Codec::store()), (Codec::store(), c, c)] {
            let bytes = to_dif_workers(&img, o, p, f, 0).unwrap();
            assert_eq!(&bytes[..4], b"DIF3");
            let back = from_dif(&bytes).unwrap();
            assert_eq!(img, back, "codec {name} o={o:?} p={p:?} f={f:?}");
        }
    }
}

#[test]
fn multi_frame_random_access_offsets() {
    let mut img = sample(ColorDepth::Rgba8, IndexWidth::Bit8);
    img.frames = vec![
        Frame { delay_us: 100, indices: vec![0u64; 16] },
        Frame { delay_us: 200, indices: vec![1u64; 16] },
        Frame { delay_us: 300, indices: vec![0, 1, 0, 1, 0, 1, 0, 1, 0, 1, 0, 1, 0, 1, 0, 1] },
    ];
    img.replay_count = 0;
    let bytes = to_difr(&img).unwrap();
    let back = from_difr(&bytes).unwrap();
    assert_eq!(img, back);
    assert_eq!(back.frames[1].delay_us, 200);
    assert_eq!(back.replay_count, 0);
}

#[test]
fn parallel_matches_serial_encode_and_decode() {
    let img = multi(8, 4);
    let frame_codec = Codec::parse("zstd-3").unwrap();
    let serial = to_dif_workers(&img, Codec::store(), Codec::store(), frame_codec, 0).unwrap();
    let parallel = to_dif_workers(&img, Codec::store(), Codec::store(), frame_codec, 8).unwrap();
    assert_eq!(serial, parallel, "k=1 inter-frame must equal serial bytes");
    let a = from_dif(&serial).unwrap();
    let b = from_dif_workers(&serial, 8).unwrap();
    assert_eq!(a, b, "parallel decode must equal serial decode");
    assert_eq!(img, b);
}

#[test]
fn in_frame_split_zstd_blob_roundtrips() {
    let img = multi(2, 32);
    let iw = img.index_width;
    let zstd = Codec::parse("zstd-3").unwrap();
    let blobs = compress_frames(&img.frames, iw, zstd, 8, 256).unwrap();
    assert_eq!(blobs.len(), 2);
    let px = (img.width * img.height) as usize;
    for (f, blob) in img.frames.iter().zip(&blobs) {
        let raw = decompress_section(zstd, blob, px * iw.bytes()).unwrap();
        let idx = read_frame_bitmap(&raw, px, iw).unwrap();
        assert_eq!(&idx, &f.indices, "split zstd frame must roundtrip");
    }
}

#[test]
fn in_frame_split_brotli_blob_roundtrips() {
    let img = multi(2, 32);
    let iw = img.index_width;
    let br = Codec::parse("brotli-11").unwrap();
    let blobs = compress_frames(&img.frames, iw, br, 8, 256).unwrap();
    let px = (img.width * img.height) as usize;
    for (f, blob) in img.frames.iter().zip(&blobs) {
        let raw = decompress_section(br, blob, px * iw.bytes()).unwrap();
        let idx = read_frame_bitmap(&raw, px, iw).unwrap();
        assert_eq!(&idx, &f.indices, "split brotli frame must roundtrip");
    }
}

#[test]
fn no_split_codecs_roundtrip_under_thread_pressure() {
    let img = multi(2, 8);
    for name in ["lz4", "deflate", "brotli-5"] {
        let c = Codec::parse(name).unwrap();
        let bytes = to_dif_workers(&img, Codec::store(), Codec::store(), c, 8).unwrap();
        let back = from_dif_workers(&bytes, 8).unwrap();
        assert_eq!(img, back, "codec {name} under thread pressure");
    }
}

#[test]
fn decode_rejects_corrupt_frame_record() {
    let img = multi(3, 4);
    let mut bytes =
        to_dif_workers(&img, Codec::store(), Codec::store(), Codec::store(), 0).unwrap();
    let h = Header::read(&bytes).unwrap();
    let rec1 = h.first_frame_offset as usize + h.frame_alignment as usize;
    let bogus = (bytes.len() as u64 + 64).to_le_bytes();
    bytes[rec1..rec1 + 8].copy_from_slice(&bogus);
    assert!(from_dif(&bytes).is_err(), "serial decode must reject");
    assert!(from_dif_workers(&bytes, 4).is_err(), "parallel decode must reject and propagate");
}

#[test]
fn render_picks_dark_theme() {
    let img = sample(ColorDepth::Rgba8, IndexWidth::Bit8);
    let rgba = img.render_rgba8(ThemeTag::Dark, [0, 0, 0], 0).unwrap();
    assert_eq!(&rgba[0..4], &[0, 0, 0, 255]);
    assert_eq!(&rgba[4..8], &[255, 255, 255, 255]);
}

#[test]
fn parse_known_variants() {
    assert_eq!(Codec::parse("store").unwrap(), Codec(0x00));
    assert_eq!(Codec::parse("zstd-3").unwrap(), Codec::new(CodecId::Zstd, 6));
    assert_eq!(Codec::parse("zstd-22").unwrap(), Codec::new(CodecId::Zstd, 15));
    assert_eq!(Codec::parse("brotli-11").unwrap(), Codec::new(CodecId::Brotli, 11));
    assert_eq!(Codec::parse("lz4-fast1").unwrap(), Codec::new(CodecId::Lz4, 9));
    assert!(Codec::parse("nope").is_err());
}

#[test]
fn bad_magic_rejected() {
    let mut bytes = to_dif(
        &sample(ColorDepth::Rgba8, IndexWidth::Bit8),
        Codec::store(),
        Codec::store(),
        Codec::store(),
    )
    .unwrap();
    bytes[0] = b'X';
    assert!(matches!(from_dif(&bytes), Err(DifError::BadMagic(_))));
}

#[test]
fn reject_32bit_index_width() {
    let mut bytes = to_difr(&sample(ColorDepth::Rgba8, IndexWidth::Bit8)).unwrap();
    bytes[9] = (bytes[9] & !0b11) | 0b10;
    assert!(matches!(from_difr(&bytes), Err(DifError::BadIndexWidth(32))));
}

#[test]
fn store_outer_records_sit_at_header_offsets() {
    let img = multi(3, 4);
    let bytes = to_dif(&img, Codec::store(), Codec::store(), Codec::store()).unwrap();
    let h = Header::read(&bytes).unwrap();
    assert_eq!(h.frame_alignment, 32);
    assert_eq!(h.first_frame_offset as usize + 3 * h.frame_alignment as usize, bytes.len());
    for j in 0..3usize {
        let at = h.first_frame_offset as usize + j * h.frame_alignment as usize;
        assert_eq!(u64::from_le_bytes(bytes[at..at + 8].try_into().unwrap()), 12 + 16);
        assert_eq!(u32::from_le_bytes(bytes[at + 8..at + 12].try_into().unwrap()), (j as u32) * 10);
        let plane: Vec<u64> = bytes[at + 12..at + 28].iter().map(|&b| b as u64).collect();
        assert_eq!(plane, img.frames[j].indices);
    }
}

#[test]
fn raw_and_compressed_containers_refuse_each_other() {
    let img = sample(ColorDepth::Rgba8, IndexWidth::Bit8);
    let raw = to_difr(&img).unwrap();
    let packed = to_dif(&img, Codec::store(), Codec::store(), Codec::store()).unwrap();
    assert_eq!(from_dif(&raw), Err(DifError::BadMagic(*b"DIFR3\0\0\0")));
    assert_eq!(from_difr(&packed), Err(DifError::BadMagic(*b"DIF3\0\0\0\0")));
    assert_eq!(from_dif(&packed[..63]), Err(DifError::UnexpectedEof));
}

#[test]
fn unavailable_codecs_surface_as_errors() {
    let img = sample(ColorDepth::Rgba8, IndexWidth::Bit8);
    let lzav = Codec::parse("lzav-1").unwrap();
    assert_eq!(
        to_dif(&img, lzav, Codec::store(), Codec::store()),
        Err(DifError::Invalid("lzav codec requires a C-codec feature"))
    );
    let bsc = Codec::parse("bsc-2").unwrap();
    assert_eq!(
        to_dif(&img, Codec::store(), bsc, Codec::store()),
        Err(DifError::Invalid("bsc codec requires the `bsc` feature"))
    );
}

#[test]
fn split_factor_follows_threads_and_job_size() {
    let two = multi(2, 4).frames;
    assert_eq!(split_factor(&two, IndexWidth::Bit8, 8, 4 << 20), 1);
    assert_eq!(split_factor(&two, IndexWidth::Bit8, 8, 4), 4);
    assert_eq!(split_factor(&two, IndexWidth::Bit8, 8, 8), 2);
    assert_eq!(split_factor(&two, IndexWidth::Bit16, 7, 1), 4);
    assert_eq!(split_factor(&two, IndexWidth::Bit8, 2, 1), 0);
    assert_eq!(split_factor(&two, IndexWidth::Bit8, 0, 1), 0);
    assert_eq!(split_factor(&[], IndexWidth::Bit8, 8, 1), 0);
}

#[test]
fn every_proper_prefix_of_a_store_outer_container_is_truncated() {
    let img = multi(3, 4);
    for (p, f) in [(Codec::store(), Codec::store()), (Codec::parse("deflate-6").unwrap(), Codec::store())] {
        for w in [0u32, 4] {
            let bytes = to_dif_workers(&img, Codec::store(), p, f, w).unwrap();
            for k in 0..bytes.len() {
                assert_eq!(from_dif(&bytes[..k]), Err(DifError::UnexpectedEof), "prefix {k}");
                assert_eq!(from_dif_workers(&bytes[..k], 3), Err(DifError::UnexpectedEof));
            }
            assert_eq!(from_dif(&bytes), Ok(img.clone()));
        }
    }
}
