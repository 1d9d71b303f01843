use dif_core::error::DifError;

#[test]
fn every_variant_has_a_display_string() {
    let cases = [
        DifError::UnexpectedEof,
        DifError::BadMagic([1, 2, 3, 4, 5, 6, 7, 8]),
        DifError::BadVersion(9),
        DifError::BadCodec(7),
        DifError::BadIndexWidth(32),
        DifError::BadColorDepth(3),
        DifError::BadThemeCount(0),
        DifError::BadAbilities(0x80),
        DifError::Unaligned(7),
        DifError::BadVarint,
        DifError::Invalid("reason"),
        DifError::CompressionFailed,
    ];
    for e in &cases {
        assert!(!e.message().is_empty());
    }
}

#[test]
fn messages_spell_their_fields() {
    assert_eq!(DifError::BadMagic([1, 2, 3, 4, 5, 6, 7, 8]).message(), "bad magic: [1, 2, 3, 4, 5, 6, 7, 8]");
    assert_eq!(DifError::BadThemeCount(300).message(), "theme count 300 out of range 1..=256");
    assert_eq!(DifError::BadAbilities(0x80).message(), "theme abilities set a reserved bit: 0x80");
    assert_eq!(DifError::BadAbilities(0x0c).message(), "theme abilities set a reserved bit: 0x0c");
    assert_eq!(DifError::Unaligned(7).message(), "offset 7 is not 16-byte aligned");
    assert_eq!(DifError::Invalid("reason").message(), "invalid DIF data: reason");
    assert_eq!(DifError::BadCodec(0).message(), "unknown/unsupported codec byte: 0");
}
