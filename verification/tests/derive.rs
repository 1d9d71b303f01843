use dif_core::container::{ColorDepth, Rgba};
use dif_core::derive::{dark_color_for, derive_dark_base_color, Strategy};
use dif_core::error::DifError;

#[test]
fn invert_base_color() {
    assert_eq!(derive_dark_base_color([255, 255, 255], Strategy::Invert, None), [0, 0, 0]);
    assert_eq!(derive_dark_base_color([0, 0, 0], Strategy::Invert, None), [255, 255, 255]);
}

#[test]
fn strategy_from_name_parses_known_and_rejects_unknown() {
    assert_eq!(Strategy::from_name("keep"), Ok(Strategy::Keep));
    assert_eq!(Strategy::from_name("invert"), Ok(Strategy::Invert));
    assert_eq!(Strategy::from_name("arithmetic"), Ok(Strategy::Arithmetic));
    assert!(Strategy::from_name("bogus").is_err());
}

#[test]
fn strategy_names_are_exact() {
    assert_eq!(
        Strategy::from_name("Keep"),
        Err(DifError::Invalid("strategy must be 'keep', 'invert', or 'arithmetic'"))
    );
    assert!(Strategy::from_name("keep ").is_err());
    assert!(Strategy::from_name("").is_err());
}

#[test]
fn invert_is_negative_and_keeps_alpha() {
    let c = Rgba::new(200, 30, 40, 128);
    assert_eq!(dark_color_for(c, Strategy::Invert, ColorDepth::Rgba8, None), Rgba::new(55, 225, 215, 128));
    let d = Rgba::new(60000, 0, 65535, 7);
    assert_eq!(
        dark_color_for(d, Strategy::Invert, ColorDepth::Rgba16, None),
        Rgba::new(5535, 65535, 0, 7)
    );
}

#[test]
fn invert_twice_is_identity() {
    let c = Rgba::new(17, 0, 255, 99);
    let once = dark_color_for(c, Strategy::Invert, ColorDepth::Rgba8, None);
    let twice = dark_color_for(once, Strategy::Invert, ColorDepth::Rgba8, None);
    assert_eq!(twice, c);
}

#[test]
fn keep_is_identity() {
    let c = Rgba::new(1, 2, 3, 4);
    assert_eq!(dark_color_for(c, Strategy::Keep, ColorDepth::Rgba8, None), c);
    assert_eq!(derive_dark_base_color([9, 8, 7], Strategy::Keep, None), [9, 8, 7]);
}

#[test]
fn arithmetic_takes_the_transformed_rgb_and_keeps_alpha() {
    let c = Rgba::new(253, 216, 53, 200);
    let d = dark_color_for(c, Strategy::Arithmetic, ColorDepth::Rgba8, Some((120, 101, 20)));
    assert_eq!(d, Rgba::new(120, 101, 20, 200));
    assert_eq!(
        derive_dark_base_color([255, 255, 255], Strategy::Arithmetic, Some((18, 18, 18))),
        [18, 18, 18]
    );
}
