//! The blend parameters the library emits are turned into colors by
//! interpolating between the two gradient anchors in a perceptually uniform
//! color space. These tests exercise that conversion on the library's
//! shades: distinct parameters give distinct colors, the sweep is free of
//! jumps beyond byte-rounding precision, and the endpoints reproduce the
//! anchors.

use line_density::grid::Grid;
use line_density::shade::{colorize, Shade};
use palette::{FromColor, Gradient, Lab, LinSrgb};

fn scale() -> Gradient<Lab> {
    let low = Lab::from_color(LinSrgb::new(247u8, 252, 241).into_format::<f32>());
    let high = Lab::from_color(LinSrgb::new(14u8, 66, 127).into_format::<f32>());
    Gradient::new(vec![low, high])
}

fn color_of(shade: Shade, scale: &Gradient<Lab>) -> [u8; 3] {
    match shade {
        Shade::White => [255, 255, 255],
        Shade::Blend { num, den } => {
            let t = num as f32 / den as f32;
            let c = LinSrgb::from_color(scale.get(t));
            [
                (c.red * 255.0).round() as u8,
                (c.green * 255.0).round() as u8,
                (c.blue * 255.0).round() as u8,
            ]
        }
    }
}

#[test]
fn distinct_parameters_get_distinct_colors() {
    let grid = Grid {
        width: 1,
        height: 3,
        cells: vec![2, 6, 10],
    };
    let shades = colorize(&grid);
    let scale = scale();
    let c1 = color_of(shades[0], &scale);
    let c2 = color_of(shades[1], &scale);
    let c3 = color_of(shades[2], &scale);
    assert_ne!(c1, c2);
    assert_ne!(c2, c3);
    assert_ne!(c1, c3);
}

#[test]
fn gradient_sweep_has_no_jumps() {
    // Sweeping the parameter over many even steps never moves any channel
    // by more than a few byte values at once.
    let scale = scale();
    let steps: u64 = 200;
    let mut prev = color_of(
        Shade::Blend {
            num: 1,
            den: steps,
        },
        &scale,
    );
    for i in 2..=steps {
        let next = color_of(
            Shade::Blend {
                num: i,
                den: steps,
            },
            &scale,
        );
        for ch in 0..3 {
            let a = prev[ch] as i32;
            let b = next[ch] as i32;
            assert!((a - b).abs() <= 4, "jump at step {i}: {prev:?} -> {next:?}");
        }
        prev = next;
    }
}

#[test]
fn full_parameter_reproduces_the_high_anchor() {
    // A cell holding the global maximum carries the parameter 1 and is
    // rendered as the high anchor color, up to byte rounding.
    let scale = scale();
    let c = color_of(Shade::Blend { num: 7, den: 7 }, &scale);
    let expect = [14u8, 66, 127];
    for ch in 0..3 {
        let d = (c[ch] as i32 - expect[ch] as i32).abs();
        assert!(d <= 1, "channel {ch}: {c:?} vs {expect:?}");
    }
}
