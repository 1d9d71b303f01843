use dif_core::container::Rgba;
use dif_core::regional::merge_splits;
use palette::{IntoColor, Oklab, Srgb};

/// Row-major closeness of dark colors: equal, or within 0.02 in OKLab (8-bit).
fn close_of(dark: &[Rgba]) -> Vec<bool> {
    let lab: Vec<Oklab<f64>> = dark
        .iter()
        .map(|c| {
            Srgb::new(c.r as f64 / 255.0, c.g as f64 / 255.0, c.b as f64 / 255.0).into_color()
        })
        .collect();
    let n = dark.len();
    let mut close = vec![false; n * n];
    for i in 0..n {
        for j in 0..n {
            let d = ((lab[i].l - lab[j].l).powi(2)
                + (lab[i].a - lab[j].a).powi(2)
                + (lab[i].b - lab[j].b).powi(2))
            .sqrt();
            close[i * n + j] = dark[i] == dark[j] || d <= 0.02;
        }
    }
    close
}

#[test]
fn merge_splits_feature_and_capacity() {
    // Color 0 has four entries: a primary (freq 9), a near-identical-dark split
    // (feature-merges into the primary), and two distinct-dark splits. Color 1
    // has one. With capacity 3, exactly one of color 0's distinct splits must
    // capacity-merge back.
    let cid = [0u32, 0, 0, 0, 1];
    let freq = [9u32, 3, 5, 4, 4];
    let g = Rgba::new(50, 50, 50, 255);
    let light = [g, g, g, g, Rgba::new(200, 10, 10, 255)];
    let dark = [
        Rgba::new(180, 180, 180, 255), // 0: primary
        Rgba::new(181, 180, 180, 255), // 1: ~identical -> feature merge into 0
        Rgba::new(90, 90, 90, 255),    // 2: distinct (freq 5, survives)
        Rgba::new(120, 120, 120, 255), // 3: distinct (freq 4, capacity-merged)
        Rgba::new(40, 10, 10, 255),    // 4: color 1
    ];
    let close = close_of(&dark);
    let (to_final, fin_light, fin_dark) = merge_splits(&cid, &freq, &light, &dark, &close, 3);
    assert_eq!(fin_light.len(), 3);
    assert_eq!(fin_dark.len(), 3);
    assert_eq!(to_final[0], to_final[1], "near-identical dark feature-merged");
    assert_eq!(to_final[0], to_final[3], "lowest-freq split capacity-merged");
    assert_ne!(to_final[2], to_final[0], "higher-freq split survives");
    assert_ne!(to_final[4], to_final[0], "other color is its own index");
    assert!(fin_light.contains(&Rgba::new(200, 10, 10, 255)));
}

#[test]
fn merge_splits_numbers_survivors_in_index_order() {
    let cid = [0u32, 0, 0, 0, 1];
    let freq = [9u32, 3, 5, 4, 4];
    let g = Rgba::new(50, 50, 50, 255);
    let light = [g, g, g, g, Rgba::new(200, 10, 10, 255)];
    let dark = [
        Rgba::new(180, 180, 180, 255),
        Rgba::new(181, 180, 180, 255),
        Rgba::new(90, 90, 90, 255),
        Rgba::new(120, 120, 120, 255),
        Rgba::new(40, 10, 10, 255),
    ];
    let close = close_of(&dark);
    let (to_final, fin_light, fin_dark) = merge_splits(&cid, &freq, &light, &dark, &close, 3);
    assert_eq!(to_final, vec![0, 0, 1, 0, 2]);
    assert_eq!(fin_light, vec![g, g, Rgba::new(200, 10, 10, 255)]);
    assert_eq!(fin_dark, vec![dark[0], dark[2], dark[4]]);
    // with room for every kept entry only the feature merge happens
    let (to_final, fin_light, _) = merge_splits(&cid, &freq, &light, &dark, &close, 4);
    assert_eq!(to_final, vec![0, 0, 1, 2, 3]);
    assert_eq!(fin_light.len(), 4);
}

#[test]
fn merge_splits_never_merges_across_colors() {
    // every dark color equal, but three color ids and capacity 1: the primaries stay
    let cid = [0u32, 1, 2, 1];
    let freq = [1u32, 1, 1, 1];
    let c = Rgba::new(10, 20, 30, 255);
    let light = [c, Rgba::new(1, 1, 1, 255), Rgba::new(2, 2, 2, 255), Rgba::new(1, 1, 1, 255)];
    let dark = [c, c, c, c];
    let close = vec![true; 16];
    let (to_final, fin_light, fin_dark) = merge_splits(&cid, &freq, &light, &dark, &close, 1);
    assert_eq!(to_final, vec![0, 1, 2, 1]);
    assert_eq!(fin_light, vec![light[0], light[1], light[2]]);
    assert_eq!(fin_dark.len(), 3);
}

#[test]
fn merge_splits_capacity_ties_go_by_index() {
    // one color, three distinct-dark splits of equal use, room for two:
    // the earlier of the two non-primary splits merges back first
    let cid = [5u32, 5, 5];
    let freq = [2u32, 2, 2];
    let light = [Rgba::new(9, 9, 9, 255); 3];
    let dark = [Rgba::new(0, 0, 0, 255), Rgba::new(128, 128, 128, 255), Rgba::new(255, 255, 255, 255)];
    let close = close_of(&dark);
    let (to_final, _, fin_dark) = merge_splits(&cid, &freq, &light, &dark, &close, 2);
    assert_eq!(to_final, vec![0, 0, 1]);
    assert_eq!(fin_dark, vec![dark[0], dark[2]]);
}

#[test]
fn merge_splits_of_nothing_is_empty() {
    let (to_final, fin_light, fin_dark) = merge_splits(&[], &[], &[], &[], &[], 0);
    assert!(to_final.is_empty() && fin_light.is_empty() && fin_dark.is_empty());
}

use dif_core::container::IndexWidth;
use dif_core::derive::{RegionClass, Strategy};
use dif_core::error::DifError;
use dif_core::regional::{
    assemble_regional, assemble_unsplit, grow_text_mask, regional_plan, split_keys, splits_by_region,
};

#[test]
fn grow_text_mask_follows_edges_not_fill() {
    let (w, h) = (9usize, 3usize);
    let mut core = vec![RegionClass::Background; w * h];
    let mut energy = vec![0.0f64; w * h];
    for y in 0..h {
        core[y * w + 4] = RegionClass::Foreground; // a 1px stroke
        energy[y * w + 3] = 0.2; // AA shell on both sides (edge energy)
        energy[y * w + 5] = 0.2;
    }
    let edge: Vec<bool> = energy.iter().map(|&e| e > 0.06).collect();
    let m = grow_text_mask(w, h, &core, &edge);
    assert!(m[4], "core stays text");
    assert!(m[3] && m[5], "grew into the AA shell");
    assert!(!m[1] && !m[7], "flat fill (no edge) not grown");
}

#[test]
fn grow_text_mask_takes_two_passes_along_an_edge() {
    // edge pixels run along a row: the mask reaches two steps from the core
    let (w, h) = (7usize, 1usize);
    let mut core = vec![RegionClass::Background; w];
    core[0] = RegionClass::Foreground;
    let edge = vec![true; w];
    let m = grow_text_mask(w, h, &core, &edge);
    assert_eq!(m, vec![true, true, true, false, false, false, false]);
    assert_eq!(grow_text_mask(0, 0, &[], &[]), Vec::<bool>::new());
}

#[test]
fn build_regional_rejects_bad_length_and_width() {
    assert_eq!(
        regional_plan(2, 2, &[0u8; 8], None),
        Err(DifError::Invalid("rgba length != 4*width*height"))
    );
    let ok_len = vec![0u8; 4 * 4];
    assert_eq!(regional_plan(2, 2, &ok_len, Some(IndexWidth::Bit32)), Err(DifError::BadIndexWidth(32)));
    assert_eq!(regional_plan(2, 2, &ok_len, Some(IndexWidth::Bit64)), Err(DifError::BadIndexWidth(64)));
}

#[test]
fn regional_plan_orders_colors_by_use_then_key() {
    // 2x2: three pixels of b, one of a; and a 2-2 tie broken by the smaller key
    let a = [20u8, 20, 20, 255];
    let b = [200u8, 200, 200, 255];
    let rgba: Vec<u8> = [a, b, b, b].concat();
    let (ids, colors, freq, iw) = regional_plan(2, 2, &rgba, None).unwrap();
    assert_eq!(colors, vec![Rgba::new(200, 200, 200, 255), Rgba::new(20, 20, 20, 255)]);
    assert_eq!(freq, vec![3, 1]);
    assert_eq!(ids, vec![1, 0, 0, 0]);
    assert_eq!(iw, IndexWidth::Bit8);
    let tied: Vec<u8> = [b, a, b, a].concat();
    let (ids, colors, freq, _) = regional_plan(2, 2, &tied, Some(IndexWidth::Bit16)).unwrap();
    assert_eq!(colors, vec![Rgba::new(20, 20, 20, 255), Rgba::new(200, 200, 200, 255)]);
    assert_eq!(freq, vec![2, 2]);
    assert_eq!(ids, vec![1, 0, 1, 0]);
}

#[test]
fn regional_plan_widens_past_256_colors() {
    // 300 distinct colors need 16-bit indices
    let rgba: Vec<u8> = (0..300u32).flat_map(|i| [(i & 255) as u8, (i >> 8) as u8, 0, 255]).collect();
    let (ids, colors, freq, iw) = regional_plan(300, 1, &rgba, None).unwrap();
    assert_eq!(iw, IndexWidth::Bit16);
    assert_eq!(colors.len(), 300);
    assert!(freq.iter().all(|&f| f == 1));
    for p in 0..300 {
        let c = colors[ids[p] as usize];
        assert_eq!([c.r as u8, c.g as u8, c.b as u8, c.a as u8], [rgba[4 * p], rgba[4 * p + 1], rgba[4 * p + 2], rgba[4 * p + 3]]);
    }
    // colors come in ascending key order when every count ties
    assert_eq!(colors[0], Rgba::new(0, 0, 0, 255));
    assert_eq!(colors[299], Rgba::new(43, 1, 0, 255));
}

#[test]
fn split_keys_split_colors_by_text() {
    let ids = [0u32, 0, 1, 0, 1];
    let fg = [false, true, false, false, false];
    let s = split_keys(&ids, &fg);
    assert_eq!(s.cid, vec![0, 1, 0]);
    assert_eq!(s.text, vec![false, false, true]);
    assert_eq!(s.uses, vec![2, 2, 1]);
    assert_eq!(s.entry_of, vec![0, 2, 1, 0, 1]);
}

#[test]
fn splits_by_region_only_for_arithmetic_that_fits() {
    assert!(splits_by_region(Strategy::Arithmetic, 256, IndexWidth::Bit8));
    assert!(!splits_by_region(Strategy::Arithmetic, 257, IndexWidth::Bit8));
    assert!(splits_by_region(Strategy::Arithmetic, 257, IndexWidth::Bit16));
    assert!(!splits_by_region(Strategy::Keep, 2, IndexWidth::Bit8));
    assert!(!splits_by_region(Strategy::Invert, 2, IndexWidth::Bit8));
}

/// A light fill with a one-pixel black stroke down columns 1 and 2 of a 4x2 image.
fn stroke() -> (Vec<u8>, Vec<bool>) {
    let fill = [210u8, 225, 250, 255];
    let ink = [0u8, 0, 0, 255];
    let mut rgba = Vec::new();
    let mut fg = Vec::new();
    for _y in 0..2 {
        for x in 0..4 {
            let text = x == 1 || x == 2;
            rgba.extend_from_slice(if x == 2 { &ink } else { &fill });
            fg.push(text);
        }
    }
    (rgba, fg)
}

#[test]
fn assemble_regional_keeps_light_bit_exact_and_splits_dark() {
    let (rgba, fg) = stroke();
    let (ids, colors, _, iw) = regional_plan(4, 2, &rgba, None).unwrap();
    let split = split_keys(&ids, &fg);
    // fill non-text, ink text, fill text: three splits with distinct darks
    assert_eq!(split.cid.len(), 3);
    let prov_dark: Vec<Rgba> = split
        .cid
        .iter()
        .zip(split.text.iter())
        .map(|(&c, &t)| if t { Rgba::new(250, 250, 250, 255) } else { Rgba::new(30 + c as u16, 30, 30, 255) })
        .collect();
    let n = prov_dark.len();
    let close: Vec<bool> = (0..n * n).map(|k| prov_dark[k / n] == prov_dark[k % n]).collect();
    let (img, rep) =
        assemble_regional(4, 2, &colors, &ids, &fg, &split, &prov_dark, &close, iw, Strategy::Arithmetic, Some((20, 20, 20)))
            .unwrap();
    assert_eq!(img.palettes.len(), 2);
    assert_eq!(img.themes.len(), 2);
    assert_eq!(img.themes[1].base_color, [20, 20, 20]);
    assert_eq!(rep.base_indices, 2);
    assert_eq!(rep.split_indices, 3);
    assert!(rep.split_indices >= rep.base_indices);
    let (light, dark) = (&img.palettes[0], &img.palettes[1]);
    for (p, &idx) in img.frames[0].indices.iter().enumerate() {
        let c = light[idx as usize];
        assert_eq!([c.r as u8, c.g as u8, c.b as u8, c.a as u8], [rgba[4 * p], rgba[4 * p + 1], rgba[4 * p + 2], rgba[4 * p + 3]]);
    }
    // the most used entry (non-text fill, 4 pixels) comes first; of the two tied
    // text entries the darker light color (the ink) comes next
    assert_eq!(img.frames[0].indices, vec![0, 2, 1, 0, 0, 2, 1, 0]);
    assert_eq!(dark[0], Rgba::new(30, 30, 30, 255));
    assert_eq!(dark[1], Rgba::new(250, 250, 250, 255));
    assert_eq!(dark[2], Rgba::new(250, 250, 250, 255));
    // every pixel's dark color is the seed of its split
    for (p, &idx) in img.frames[0].indices.iter().enumerate() {
        assert_eq!(dark[idx as usize], prov_dark[split.entry_of[p] as usize]);
    }
    // a second build gives the same image
    let again =
        assemble_regional(4, 2, &colors, &ids, &fg, &split, &prov_dark, &close, iw, Strategy::Arithmetic, Some((20, 20, 20)))
            .unwrap();
    assert_eq!((img, rep), again);
}

#[test]
fn assemble_regional_merges_near_identical_splits() {
    let (rgba, fg) = stroke();
    let (ids, colors, _, iw) = regional_plan(4, 2, &rgba, None).unwrap();
    let split = split_keys(&ids, &fg);
    let n = split.cid.len();
    let prov_dark: Vec<Rgba> = (0..n).map(|k| Rgba::new(40 + k as u16, 40, 40, 255)).collect();
    let close = vec![true; n * n];
    let (img, rep) =
        assemble_regional(4, 2, &colors, &ids, &fg, &split, &prov_dark, &close, iw, Strategy::Invert, None).unwrap();
    // the dark colors kept are the seeds of the surviving entries 0 (fill) and 2 (ink)
    assert_eq!(img.palettes[1], vec![prov_dark[0], prov_dark[2]]);
    // the fill's text split folds back into the fill: one entry per color
    assert_eq!(rep.split_indices, 2);
    assert_eq!(img.palettes[0].len(), 2);
    assert_eq!(img.themes[1].base_color, [0, 0, 0]);
}

#[test]
fn assemble_regional_refuses_out_of_depth_dark_colors() {
    let (rgba, fg) = stroke();
    let (ids, colors, _, iw) = regional_plan(4, 2, &rgba, None).unwrap();
    let split = split_keys(&ids, &fg);
    let n = split.cid.len();
    let prov_dark = vec![Rgba::new(300, 0, 0, 255); n];
    let close = vec![false; n * n];
    assert_eq!(
        assemble_regional(4, 2, &colors, &ids, &fg, &split, &prov_dark, &close, iw, Strategy::Keep, None).map(|_| ()),
        Err(DifError::Invalid("color channel exceeds the color depth"))
    );
}

#[test]
fn build_regional_keep_is_identity_dark() {
    let (w, h) = (4u32, 4u32);
    let rgba: Vec<u8> = (0..w * h).flat_map(|i| [i as u8, 0, 0, 255]).collect();
    let (ids, colors, _, iw) = regional_plan(w, h, &rgba, None).unwrap();
    assert!(!splits_by_region(Strategy::Keep, colors.len(), iw));
    let (img, rep) = assemble_unsplit(w, h, &colors, &ids, iw, Strategy::Keep);
    assert_eq!(img.palettes[0], img.palettes[1], "keep dark == light");
    assert_eq!(img.validate(), Ok(()));
    assert_eq!(rep.base_indices, 16);
    assert_eq!(rep.split_indices, 16);
    assert_eq!(img.themes[1].base_color, [255, 255, 255]);
}

#[test]
fn assemble_unsplit_inverts_each_color() {
    let rgba: Vec<u8> = [[10u8, 20, 30, 255], [10, 20, 30, 255], [200, 100, 0, 128]].concat();
    let (ids, colors, _, iw) = regional_plan(3, 1, &rgba, None).unwrap();
    let (img, _) = assemble_unsplit(3, 1, &colors, &ids, iw, Strategy::Invert);
    assert_eq!(img.palettes[0], vec![Rgba::new(10, 20, 30, 255), Rgba::new(200, 100, 0, 128)]);
    assert_eq!(img.palettes[1], vec![Rgba::new(245, 235, 225, 255), Rgba::new(55, 155, 255, 128)]);
    assert_eq!(img.frames[0].indices, vec![0, 0, 1]);
    assert_eq!(img.themes[1].base_color, [0, 0, 0]);
}
