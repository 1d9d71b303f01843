use dif_core::container::{ColorDepth, IndexWidth, Rgba, Theme};
use dif_core::error::DifError;
use dif_core::format::{
    align16, frame_bitmap_bytes, palettes_bytes, read_frame_bitmap, read_palettes, read_themes,
    themes_bytes, Header, HEADER_LEN, MAGIC_DIF, MAGIC_DIFR,
};

fn header(is_raw: bool) -> Header {
    Header {
        is_raw,
        codec: 0x46,
        flags: 0b0101,
        codec_palette: 0x12,
        codec_frame: 0x50,
        theme_count: 256,
        frame_count: 3,
        replay_count: 7,
        width: 640,
        height: 480,
        first_frame_offset: (5u128 << 64) + 96,
        frame_alignment: 4096,
        index_count: 200,
        palette_size: 1234,
    }
}

#[test]
fn header_write_then_read_is_identity() {
    for raw in [false, true] {
        let h = header(raw);
        let mut out = Vec::new();
        h.write(&mut out);
        assert_eq!(out.len(), HEADER_LEN);
        assert_eq!(&out[..8], if raw { &MAGIC_DIFR } else { &MAGIC_DIF });
        let back = Header::read(&out).unwrap();
        assert_eq!(back.is_raw, raw);
        assert_eq!(back.codec, 0x46);
        assert_eq!(back.flags, 0b0101);
        assert_eq!(back.codec_palette, 0x12);
        assert_eq!(back.codec_frame, 0x50);
        assert_eq!(back.theme_count, 256);
        assert_eq!(back.frame_count, 3);
        assert_eq!(back.replay_count, 7);
        assert_eq!(back.width, 640);
        assert_eq!(back.height, 480);
        assert_eq!(back.first_frame_offset, (5u128 << 64) + 96);
        assert_eq!(back.frame_alignment, 4096);
        assert_eq!(back.index_count, 200);
        assert_eq!(back.palette_size, 1234);
    }
}

#[test]
fn header_layout_is_little_endian() {
    let mut out = Vec::new();
    header(false).write(&mut out);
    assert_eq!(out[12], 255); // theme_count - 1
    assert_eq!(&out[14..16], &[3, 0]);
    assert_eq!(&out[20..24], &[0x80, 0x02, 0, 0]);
    assert_eq!(&out[28..32], &[5, 0, 0, 0]);
    assert_eq!(&out[32..40], &[96, 0, 0, 0, 0, 0, 0, 0]);
}

#[test]
fn header_read_errors() {
    assert_eq!(Header::read(&[0u8; 63]).unwrap_err(), DifError::UnexpectedEof);
    let mut out = Vec::new();
    header(false).write(&mut out);
    out[3] = b'4';
    assert_eq!(Header::read(&out).unwrap_err(), DifError::BadMagic([b'D', b'I', b'F', b'4', 0, 0, 0, 0]));
}

#[test]
fn header_flag_decoding() {
    let h = header(false);
    assert!(h.index_width().is_ok());
    assert!(h.color_depth().is_ok());
    let mut bad = header(false);
    bad.flags = 0b1000;
    assert_eq!(bad.color_depth().unwrap_err(), DifError::BadColorDepth(2));
}

#[test]
fn align16_rounds_up() {
    assert_eq!(align16(0), 0);
    assert_eq!(align16(1), 16);
    assert_eq!(align16(16), 16);
    assert_eq!(align16(17), 32);
}

#[test]
fn sections_read_back_what_was_written() {
    let themes = vec![
        Theme { abilities: 1, base_color: [1, 2, 3] },
        Theme { abilities: 6, base_color: [250, 0, 9] },
    ];
    let mut t = Vec::new();
    themes_bytes(&themes, &mut t);
    assert_eq!(t, vec![1, 1, 2, 3, 6, 250, 0, 9]);
    assert_eq!(read_themes(&t, 2).unwrap(), themes);
    assert_eq!(read_themes(&t[..7], 2), Err(DifError::UnexpectedEof));

    let pals = vec![
        vec![Rgba::new(1, 2, 3, 4), Rgba::new(0x1234, 0, 0xFFFF, 7)],
        vec![Rgba::new(9, 9, 9, 9), Rgba::new(0, 0, 0, 0)],
    ];
    let mut p = Vec::new();
    palettes_bytes(&pals, ColorDepth::Rgba16, &mut p);
    assert_eq!(p.len(), 2 * 2 * 8);
    assert_eq!(&p[8..16], &[0x34, 0x12, 0, 0, 0xFF, 0xFF, 7, 0]);
    assert_eq!(read_palettes(&p, 2, 2, ColorDepth::Rgba16).unwrap(), pals);

    let idx = vec![0u64, 1, 300, 65535];
    let mut b = Vec::new();
    frame_bitmap_bytes(&idx, IndexWidth::Bit16, &mut b);
    assert_eq!(b, vec![0, 0, 1, 0, 0x2C, 0x01, 0xFF, 0xFF]);
    assert_eq!(read_frame_bitmap(&b, 4, IndexWidth::Bit16).unwrap(), idx);
    assert_eq!(read_frame_bitmap(&b, 5, IndexWidth::Bit16), Err(DifError::UnexpectedEof));
    assert_eq!(read_frame_bitmap(&b, 1, IndexWidth::Bit32), Err(DifError::BadIndexWidth(32)));
}

#[test]
fn header_read_then_write_gives_the_bytes_back() {
    for raw in [false, true] {
        let mut b: Vec<u8> = (0..80u32).map(|i| (i * 37 % 251) as u8).collect();
        b[..8].copy_from_slice(if raw { &MAGIC_DIFR } else { &MAGIC_DIF });
        b[13] = 0;
        b[18] = 0;
        b[19] = 0;
        let h = Header::read(&b).unwrap();
        let mut out = Vec::new();
        h.write(&mut out);
        assert_eq!(out, b[..64].to_vec());
    }
}
