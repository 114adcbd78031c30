use harmonic_pickup::color::{heat_to_color, rgb_from_hex, ColorPoint};
use harmonic_pickup::defaults::heat_map_hex_stops;
use palette::{IntoColor, Oklab, Srgb};

fn rgb_stops() -> Vec<ColorPoint> {
    heat_map_hex_stops()
        .into_iter()
        .map(|hex| {
            let c = rgb_from_hex(hex);
            ColorPoint {
                c0: c.red as u32,
                c1: c.green as u32,
                c2: c.blue as u32,
            }
        })
        .collect()
}

#[test]
fn hex_codes_split_into_channels() {
    let c = rgb_from_hex(0xA6CFA1);
    assert_eq!((c.red, c.green, c.blue), (0xA6, 0xCF, 0xA1));
    let c = rgb_from_hex(0x000000);
    assert_eq!((c.red, c.green, c.blue), (0, 0, 0));
    let c = rgb_from_hex(0xFFFFFF);
    assert_eq!((c.red, c.green, c.blue), (0xFF, 0xFF, 0xFF));
    let c = rgb_from_hex(0xFF8000);
    assert_eq!((c.red, c.green, c.blue), (0xFF, 0x80, 0x00));
}

#[test]
fn gradient_ends_are_the_outer_stops() {
    let stops = rgb_stops();
    let first = heat_to_color(0, 1000, &stops);
    assert_eq!((first.c0, first.c1, first.c2), (0, 0, 0));
    let last = heat_to_color(1000, 1000, &stops);
    assert_eq!((last.c0, last.c1, last.c2), (255, 255, 255));
    // heats past 1 clamp to the last stop
    let clamped = heat_to_color(2000, 1000, &stops);
    assert_eq!(clamped, last);
}

#[test]
fn gradient_hits_inner_stops_exactly() {
    let stops = rgb_stops();
    // with 7 stops, heat 1/2 sits exactly on stop 3 (green)
    let mid = heat_to_color(500, 1000, &stops);
    assert_eq!((mid.c0, mid.c1, mid.c2), (0, 255, 0));
    // heat k/6 sits exactly on stop k
    for (k, stop) in stops.iter().enumerate() {
        let c = heat_to_color(k as u64, 6, &stops);
        assert_eq!(c, *stop);
    }
}

#[test]
fn gradient_interpolates_between_stops() {
    let stops = rgb_stops();
    // heat 1/4 is halfway between blue and cyan
    let c = heat_to_color(250, 1000, &stops);
    assert_eq!((c.c0, c.c1, c.c2), (0, 127, 255));
}

#[test]
fn gradient_degenerate_stop_lists() {
    let none: Vec<ColorPoint> = Vec::new();
    let black = heat_to_color(500, 1000, &none);
    assert_eq!((black.c0, black.c1, black.c2), (0, 0, 0));
    let one = vec![ColorPoint {
        c0: 10,
        c1: 20,
        c2: 30,
    }];
    let only = heat_to_color(500, 1000, &one);
    assert_eq!(only, one[0]);
}

#[test]
fn gradient_is_continuous_between_boundaries() {
    // adjacent heats never move a channel by more than the exact rational
    // step plus one unit of rounding: here 255 * 6 / 1000 + 1 < 3
    let stops = rgb_stops();
    let mut prev = heat_to_color(0, 1000, &stops);
    for num in 1..=1000u64 {
        let cur = heat_to_color(num, 1000, &stops);
        assert!(cur.c0.abs_diff(prev.c0) <= 2);
        assert!(cur.c1.abs_diff(prev.c1) <= 2);
        assert!(cur.c2.abs_diff(prev.c2) <= 2);
        prev = cur;
    }
}

// The heat map is drawn by interpolating in the Oklab colour space: the
// stops are converted to Oklab, scaled to integer channels, interpolated,
// and converted back.  These tests cover that pipeline end to end.

const OKLAB_SCALE: f32 = 1_000_000.0;

fn oklab_channels(hex: u32) -> ColorPoint {
    let c = rgb_from_hex(hex);
    let lab: Oklab = Srgb::new(
        c.red as f32 / 255.0,
        c.green as f32 / 255.0,
        c.blue as f32 / 255.0,
    )
    .into_color();
    // Oklab coordinates sit well inside [-1, 1]; shift and scale them into
    // unsigned integer channels
    ColorPoint {
        c0: ((lab.l + 1.0) * OKLAB_SCALE) as u32,
        c1: ((lab.a + 1.0) * OKLAB_SCALE) as u32,
        c2: ((lab.b + 1.0) * OKLAB_SCALE) as u32,
    }
}

fn channels_to_rgb(p: ColorPoint) -> (u8, u8, u8) {
    let lab = Oklab::new(
        p.c0 as f32 / OKLAB_SCALE - 1.0,
        p.c1 as f32 / OKLAB_SCALE - 1.0,
        p.c2 as f32 / OKLAB_SCALE - 1.0,
    );
    let rgb: Srgb = lab.into_color();
    (
        (rgb.red.clamp(0.0, 1.0) * 255.0) as u8,
        (rgb.green.clamp(0.0, 1.0) * 255.0) as u8,
        (rgb.blue.clamp(0.0, 1.0) * 255.0) as u8,
    )
}

#[test]
fn oklab_round_trip_recovers_the_stops() {
    // a heat that lands exactly on a stop comes back as that stop's colour,
    // up to the rounding of the colour-space conversion
    let hexes = heat_map_hex_stops();
    let stops: Vec<ColorPoint> = hexes.iter().map(|&h| oklab_channels(h)).collect();
    for (k, &hex) in hexes.iter().enumerate() {
        let out = heat_to_color(k as u64, (hexes.len() - 1) as u64, &stops);
        let (r, g, b) = channels_to_rgb(out);
        let want = rgb_from_hex(hex);
        assert!(r.abs_diff(want.red) <= 1);
        assert!(g.abs_diff(want.green) <= 1);
        assert!(b.abs_diff(want.blue) <= 1);
    }
}
