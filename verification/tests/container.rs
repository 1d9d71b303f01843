use dif_core::abilities;
use dif_core::codec::{to_dif, to_difr, Codec};
use dif_core::container::{ColorDepth, DifImage, Frame, IndexWidth, Rgba, Theme, ThemeTag};
use dif_core::describe::themes_description;
use dif_core::error::DifError;

fn two_themes() -> DifImage {
    DifImage {
        width: 2,
        height: 1,
        color_depth: ColorDepth::Rgba8,
        index_width: IndexWidth::Bit8,
        themes: vec![
            Theme { abilities: abilities::LIGHT, base_color: [255, 255, 255] },
            Theme { abilities: abilities::DARK, base_color: [0, 0, 0] },
        ],
        palettes: vec![
            vec![Rgba::new(250, 250, 250, 255), Rgba::new(10, 10, 10, 255)],
            vec![Rgba::new(20, 20, 20, 255), Rgba::new(240, 240, 240, 255)],
        ],
        frames: vec![Frame { delay_us: 0, indices: vec![1, 0] }],
        replay_count: 1,
    }
}

#[test]
fn capable_theme_wins_over_a_nearer_base() {
    let img = two_themes();
    // The light theme's base is nearer to this background, but only the dark
    // theme is marked dark-capable.
    assert_eq!(img.pick_theme(ThemeTag::Dark, [250, 250, 250]), 1);
    assert_eq!(img.pick_theme(ThemeTag::Light, [0, 0, 0]), 0);
}

#[test]
fn nearest_base_breaks_ties_and_first_wins_exact_ties() {
    let mut img = two_themes();
    img.themes = vec![
        Theme { abilities: abilities::DARK, base_color: [0, 0, 0] },
        Theme { abilities: abilities::DARK, base_color: [40, 40, 40] },
        Theme { abilities: abilities::DARK, base_color: [40, 40, 40] },
    ];
    assert_eq!(img.pick_theme(ThemeTag::Dark, [35, 35, 35]), 1);
    assert_eq!(img.pick_theme(ThemeTag::Dark, [5, 5, 5]), 0);
    // Nobody is high-contrast capable: the nearest base decides among all.
    assert_eq!(img.pick_theme(ThemeTag::HighContrast, [50, 50, 50]), 1);
}

#[test]
fn render_uses_the_picked_palette() {
    let img = two_themes();
    let light = img.render_rgba8(ThemeTag::Light, [255, 255, 255], 0).unwrap();
    assert_eq!(light, vec![10, 10, 10, 255, 250, 250, 250, 255]);
    let dark = img.render_rgba8(ThemeTag::Dark, [0, 0, 0], 0).unwrap();
    assert_eq!(dark, vec![240, 240, 240, 255, 20, 20, 20, 255]);
}

#[test]
fn render_16bit_keeps_the_high_byte() {
    let mut img = two_themes();
    img.color_depth = ColorDepth::Rgba16;
    img.palettes = vec![
        vec![Rgba::new(0xABCD, 0x0100, 0x00FF, 0xFFFF), Rgba::new(0, 0, 0, 0)],
        vec![Rgba::new(0, 0, 0, 0), Rgba::new(0, 0, 0, 0)],
    ];
    let out = img.render_rgba8(ThemeTag::Light, [255, 255, 255], 0).unwrap();
    assert_eq!(&out[4..8], &[0xAB, 0x01, 0x00, 0xFF]);
}

#[test]
fn render_rejects_missing_frame_and_stray_index() {
    let mut img = two_themes();
    assert_eq!(
        img.render_rgba8(ThemeTag::Light, [0, 0, 0], 1),
        Err(DifError::Invalid("frame index out of range"))
    );
    img.frames[0].indices = vec![0, 2];
    assert_eq!(
        img.render_rgba8(ThemeTag::Light, [0, 0, 0], 0),
        Err(DifError::Invalid("frame index outside the palette"))
    );
}

#[test]
fn validate_reports_the_first_broken_rule() {
    let mut img = two_themes();
    assert_eq!(img.validate(), Ok(()));
    img.themes[1].abilities = 0x08;
    assert_eq!(img.validate(), Err(DifError::BadAbilities(0x08)));
    let mut img = two_themes();
    img.themes.clear();
    assert_eq!(img.validate(), Err(DifError::BadThemeCount(0)));
    let mut img = two_themes();
    img.palettes[1].pop();
    assert_eq!(img.validate(), Err(DifError::Invalid("palettes differ in length")));
    let mut img = two_themes();
    img.palettes[0][0].r = 256;
    assert_eq!(img.validate(), Err(DifError::Invalid("color channel exceeds the color depth")));
    let mut img = two_themes();
    img.frames[0].indices.push(0);
    assert_eq!(img.validate(), Err(DifError::Invalid("frame size does not match width * height")));
    let mut img = two_themes();
    img.index_width = IndexWidth::Bit32;
    assert_eq!(img.validate(), Err(DifError::BadIndexWidth(32)));
}

#[test]
fn encoders_refuse_an_invalid_image() {
    let mut img = two_themes();
    img.frames[0].indices = vec![0, 5];
    let expected = Err(DifError::Invalid("frame index outside the palette"));
    assert_eq!(to_difr(&img), expected);
    assert_eq!(to_dif(&img, Codec::store(), Codec::store(), Codec::store()), expected);
}

#[test]
fn index_width_for_count_and_capacity() {
    assert_eq!(IndexWidth::for_count(256), IndexWidth::Bit8);
    assert_eq!(IndexWidth::for_count(257), IndexWidth::Bit16);
    assert_eq!(IndexWidth::Bit8.capacity(), 256);
    assert_eq!(IndexWidth::Bit16.capacity(), 65536);
    assert!(!IndexWidth::Bit64.supported());
}

#[test]
fn mode_names_pick_an_appearance() {
    assert_eq!(ThemeTag::from_mode("dark"), ThemeTag::Dark);
    assert_eq!(ThemeTag::from_mode("high-contrast"), ThemeTag::HighContrast);
    assert_eq!(ThemeTag::from_mode("high_contrast"), ThemeTag::HighContrast);
    assert_eq!(ThemeTag::from_mode("light"), ThemeTag::Light);
    assert_eq!(ThemeTag::from_mode("Dark"), ThemeTag::Light);
    assert_eq!(ThemeTag::from_mode(""), ThemeTag::Light);
}

#[test]
fn themes_are_described_one_per_line() {
    let themes = vec![
        Theme { abilities: abilities::LIGHT, base_color: [255, 255, 255] },
        Theme { abilities: abilities::DARK | abilities::HIGH_CONTRAST, base_color: [0x0a, 0xb0, 0x3c] },
        Theme { abilities: 0, base_color: [1, 2, 3] },
        Theme { abilities: 7, base_color: [0, 0, 0] },
    ];
    assert_eq!(
        themes_description(&themes),
        "light #ffffff\ndark+high-contrast #0ab03c\nnone #010203\nlight+dark+high-contrast #000000"
    );
    assert_eq!(themes_description(&[]), "");
}
