//! Palettes.

use voxview::palette::{Color, Palette};

#[test]
fn default_palette_has_expected_corners() {
    let p = Palette::magicavoxel_default();
    // First entry of MagicaVoxel's default palette is opaque white.
    assert_eq!(p.color(0).to_array(), [255, 255, 255, 255]);
    assert!(!p.from_file);
}

#[test]
fn short_file_palette_is_padded_not_truncated() {
    let colors = vec![Color {
        r: 1,
        g: 2,
        b: 3,
        a: 4,
    }];
    let p = Palette::from_file_colors(&colors);
    assert_eq!(p.color(0).to_array(), [1, 2, 3, 4]);
    // Everything past the supplied entry falls back to the default palette.
    assert_eq!(
        p.color(255).to_array(),
        Palette::magicavoxel_default().color(255).to_array()
    );
    assert!(p.from_file);
}

#[test]
fn rgba_bytes_round_trip() {
    let p = Palette::magicavoxel_default();
    let bytes = p.to_rgba_bytes();
    for i in 0..256usize {
        assert_eq!(&bytes[i * 4..i * 4 + 4], &p.color(i as u8).to_array());
    }
}

#[test]
fn a_long_file_palette_keeps_its_first_256_entries() {
    let colors: Vec<Color> = (0..300u32)
        .map(|i| Color {
            r: (i % 256) as u8,
            g: (i / 256) as u8,
            b: 0,
            a: 255,
        })
        .collect();
    let p = Palette::from_file_colors(&colors);
    assert_eq!(p.color(255).to_array(), [255, 0, 0, 255]);
}
