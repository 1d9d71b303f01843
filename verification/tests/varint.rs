use dif_core::error::DifError;
use dif_core::varint;
use dif_core::varint::MAX_INDEX;

#[test]
fn roundtrip_boundaries() {
    let cases = [0u32, 1, 127, 128, 2047, 2048, 65535, 65536, 1_112_063, 1_112_064, MAX_INDEX];
    for &v in &cases {
        let mut buf = Vec::new();
        varint::write(&mut buf, v);
        let mut pos = 0;
        let got = varint::read(&buf, &mut pos).unwrap();
        assert_eq!(got, v, "roundtrip {v}");
        assert_eq!(pos, buf.len(), "consumed all bytes for {v}");
    }
}

#[test]
fn byte_lengths_match_utf8_thresholds() {
    let len = |v| {
        let mut b = Vec::new();
        varint::write(&mut b, v);
        b.len()
    };
    assert_eq!(len(127), 1);
    assert_eq!(len(128), 2);
    assert_eq!(len(2047), 2);
    assert_eq!(len(2048), 3);
    assert_eq!(len(65535), 3);
    assert_eq!(len(65536), 4);
}

#[test]
fn truncated_input_errors() {
    let mut buf = Vec::new();
    varint::write(&mut buf, 65536);
    buf.truncate(2);
    let mut pos = 0;
    assert_eq!(varint::read(&buf, &mut pos), Err(DifError::UnexpectedEof));
}

#[test]
fn bad_continuation_errors() {
    let buf = [0xE0, 0x00, 0x80];
    let mut pos = 0;
    assert_eq!(varint::read(&buf, &mut pos), Err(DifError::BadVarint));
}

#[test]
fn consecutive_values_read_back_in_order() {
    let mut buf = Vec::new();
    for v in [5u32, 300, 70000, 0] {
        varint::write(&mut buf, v);
    }
    let mut pos = 0;
    for v in [5u32, 300, 70000, 0] {
        assert_eq!(varint::read(&buf, &mut pos), Ok(v));
    }
    assert_eq!(pos, buf.len());
    assert_eq!(varint::read(&buf, &mut pos), Err(DifError::UnexpectedEof));
}
