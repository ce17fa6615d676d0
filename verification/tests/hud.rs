//! Laying out the text panels.

use voxview::hud::{layout, Anchor, Cell, Color, HudLine, HudMesh, Metrics};

fn scaled(scale: u8) -> Metrics {
    Metrics {
        cell_w: 6,
        cell_h: 10,
        scale,
    }
}

fn normal(s: &str) -> HudLine {
    HudLine::normal(s.to_string())
}

#[test]
fn empty_input_makes_no_geometry() {
    assert!(layout(&vec![], &scaled(2)).is_empty());
}

#[test]
fn one_quad_per_visible_glyph_plus_the_panel() {
    let lines = vec![normal("ab c"), HudLine::dim("d".to_string())];
    let mesh = layout(&lines, &scaled(2));
    // 4 non-space glyphs + 1 panel = 5 quads.
    assert_eq!(mesh.vertices.len(), 5 * 4);
    assert_eq!(mesh.indices.len(), 5 * 6);
}

#[test]
fn panel_grows_to_the_widest_line() {
    let narrow = layout(&vec![normal("ab")], &scaled(1));
    let wide = layout(&vec![normal("abcdefgh")], &scaled(1));
    let width = |m: &HudMesh| m.vertices[1].x - m.vertices[0].x;
    assert!(width(&wide) > width(&narrow));
    assert_eq!(width(&narrow), 2 * 6 + 2 * 6);
}

#[test]
fn everything_stays_inside_the_top_left_quadrant() {
    let mesh = layout(
        &vec![normal("voxview"), HudLine::error("bad file".to_string())],
        &scaled(2),
    );
    for v in &mesh.vertices {
        assert!(v.x >= 0 && v.y >= 0);
    }
}

#[test]
fn indices_stay_in_range() {
    let mesh = layout(&vec![normal("0123456789")], &scaled(3));
    for &i in &mesh.indices {
        assert!((i as usize) < mesh.vertices.len());
    }
}

#[test]
fn the_first_letter_stands_inside_the_padding() {
    let mesh = layout(&vec![normal("a")], &scaled(1));
    let v = mesh.vertices[4];
    assert_eq!((v.x, v.y), (8 + 6, 8 + 6));
    assert_eq!(v.cell, Cell::Glyph('a'));
    assert_eq!(mesh.indices[6..12], [4, 5, 6, 4, 6, 7]);
}

#[test]
fn a_second_panel_follows_the_first_where_it_is_put() {
    let m = scaled(1);
    let mut mesh = layout(&vec![normal("a")], &m);
    let other = layout(&vec![normal("b")], &m);
    let before = mesh.vertices.len();
    mesh.append(&other, 100, -3);
    assert_eq!(mesh.vertices.len(), before + other.vertices.len());
    assert_eq!(mesh.vertices[before].x, other.vertices[0].x + 100);
    assert_eq!(mesh.vertices[before].y, other.vertices[0].y - 3);
    assert_eq!(mesh.indices[12], before as u32);
}

#[test]
fn panels_hang_in_either_corner() {
    let m = scaled(2);
    assert_eq!(m.origin(Anchor::TopLeft, (100, 50), (800, 600)), (16, 16));
    assert_eq!(m.origin(Anchor::TopRight, (100, 50), (800, 600)), (684, 16));
    assert_eq!(m.line_h(), 24);
    assert_eq!(m.rows_that_fit(600), (600 - 32 - 24) / 24);
    assert_eq!(m.rows_that_fit(10), 0);
}

#[test]
fn every_colour_has_its_bytes() {
    assert_eq!(Color::Normal.srgb(), [235, 238, 242]);
    assert_eq!(Color::Dim.srgb(), [150, 155, 165]);
    assert_eq!(Color::Error.srgb(), [255, 120, 100]);
    assert_eq!(Color::Selected.srgb(), Color::Normal.srgb());
}
