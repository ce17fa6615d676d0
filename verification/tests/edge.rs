//! The edge of a grid cell, held to single-precision arithmetic.

use voxview::edge::{Edge, INFINITE, LEAST, MOST, PARTS, USUAL};

fn read(s: &str) -> Option<Edge> {
    Edge::read(&s.chars().collect())
}

fn float(e: Edge) -> f32 {
    e.parts() as f32 / PARTS as f32
}

/// What single precision makes of a text.
fn expected(s: &str) -> Option<f32> {
    let v: f32 = s.parse().ok()?;
    if v.is_finite() {
        Some(v.clamp(48.0, 512.0))
    } else {
        None
    }
}

fn agrees(s: &str) {
    assert_eq!(read(s).map(float), expected(s), "{s:?}");
}

/// So many halves of a part, written out in full.
fn halves(n: u64) -> String {
    let unit = 2 * PARTS as u128;
    let n = n as u128;
    let fraction = (n % unit) * 10u128.pow(19) / unit;
    format!("{}.{:019}", n / unit, fraction)
}

#[test]
fn a_number_is_read_into_the_range_there_is() {
    assert_eq!(read("96").map(Edge::parts), Some(96 * PARTS));
    assert_eq!(read("96.5").map(Edge::parts), Some(96 * PARTS + PARTS / 2));
    assert_eq!(read("1").map(Edge::parts), Some(LEAST));
    assert_eq!(read("-300").map(Edge::parts), Some(LEAST));
    assert_eq!(read("9999").map(Edge::parts), Some(MOST));
    assert_eq!(read("NaN"), None);
    assert_eq!(read("wide"), None);
    assert_eq!(Edge::usual().parts(), USUAL);
    assert_eq!(float(Edge::usual()), 128.0);
}

#[test]
fn every_way_to_write_a_number_is_understood() {
    for s in [
        "", ".", "+", "-", "+.", "-.e1", "5.", ".5", ".5e2", "+96.", "1e2", "1E+2", "1.5e+2", "1e", "1e+",
        "1e-", "e5", ".e5", "1e2.", "1.2.3", "1..2", "--1", "+-1", "1e2e3", "0x60", "1_00", "96f",
        " 96", "96 ", "\u{0661}", "inf", "-inf", "Infinity", "nan", "0", "-0", "-96", "000096", "96e0",
        "9600e-2", "0.096e3", "96e-0000000000000000000000000", "960000000000000000000000000000e-28",
        "0.00000000000000000000000000000000000000000000096e47", "1e39", "-1e39", "1e38", "-1e38",
        "3.4028235e38", "3.4028236e38", "1e400", "-1e400", "1e-400", "0e400", "0.0e99999999999999999999",
        "1e99999999999999999999", "1e-99999999999999999999", "-1e99999999999999999999",
        "47.99999999999999999999999999", "48", "48.0000000000000000000000001", "511.99999999999999",
        "512", "512.0000000000000001", "63.9999999", "64.0000001", "127.99999999", "255.999995",
    ] {
        agrees(s);
    }
    agrees(&INFINITE.to_string());
    agrees(&(INFINITE - 1).to_string());
    agrees(&format!("{}.99999", INFINITE - 1));
    assert_eq!(read(&INFINITE.to_string()), None);
    assert!(read(&(INFINITE - 1).to_string()).is_some());
}

#[test]
fn a_tie_goes_to_the_even_number_and_a_hair_more_goes_up() {
    for parts in [LEAST + 1, 0xFF_FFFE, 0xFF_FFFF, 0x100_0000, 0x1FF_FFFE, 0x200_0000, 0x3FF_FFFC, 0x400_0000, MOST - 9] {
        for n in 0..40u64 {
            let s = halves(2 * parts as u64 + n);
            agrees(&s);
            agrees(&format!("{s}0000000000000000000000001"));
            agrees(&format!("{s}000000000000000000000000"));
        }
    }
}

#[test]
fn an_edge_is_written_as_single_precision_numbers_are() {
    let mut seen = 0;
    let mut bits = 48f32.to_bits();
    while bits <= 512f32.to_bits() {
        let v = f32::from_bits(bits);
        let e = Edge::from_parts((v * PARTS as f32) as u32).unwrap();
        let text = v.to_string();
        assert_eq!(e.to_text(), text);
        assert_eq!(read(&text), Some(e));
        seen += 1;
        bits += 1009;
    }
    assert!(seen > 20_000);
}

#[test]
fn short_numbers_are_written_short() {
    for v in [
        48.0f32, 128.0, 96.5, 100.1, 256.015625, 256.01562, 300.015625, 64.00001, 63.999996, 127.99999, 255.99998, 511.99997, 512.0,
        99.3, 0.1 + 99.2, 256.0 + 1.0 / 64.0, 384.0 + 3.0 / 64.0, 448.0 + 5.0 / 64.0, 128.0 + 1.0 / 128.0, 200.0 + 7.0 / 128.0,
    ] {
        let e = Edge::from_parts((v * PARTS as f32) as u32).unwrap();
        assert_eq!(e.to_text(), v.to_string());
    }
    assert_eq!(Edge::usual().to_text(), "128");
}

#[test]
fn only_edges_can_be_made() {
    assert_eq!(Edge::from_parts(LEAST - 1), None);
    assert_eq!(Edge::from_parts(MOST + 8), None);
    assert_eq!(Edge::from_parts(0x100_0001), None, "no single-precision number lies there");
    assert_eq!(Edge::from_parts(0xFF_FFFF).map(Edge::parts), Some(0xFF_FFFF));
}
