use mandelbrot::escape::{escape_step, Step, NUM_LOOPS};
use mandelbrot::raster::{render, shade};

/// Runs an orbit `z <- z * z + c` in floating point, with the library
/// deciding after each step.
fn escape_of(re: f64, im: f64) -> Option<usize> {
    let (mut zr, mut zi) = (0.0f64, 0.0f64);
    let mut i: usize = 0;
    loop {
        let (nr, ni) = (zr * zr - zi * zi + re, 2.0 * zr * zi + im);
        zr = nr;
        zi = ni;
        match escape_step(i, zr * zr + zi * zi > 4.0) {
            Step::Iterate(next) => i = next,
            Step::Escaped(at) => return Some(at),
            Step::Bounded => return None,
        }
    }
}

#[test]
fn breakout_is_reported_at_its_step() {
    assert_eq!(escape_step(0, true), Step::Escaped(0));
    assert_eq!(escape_step(17, true), Step::Escaped(17));
    assert_eq!(escape_step(255, true), Step::Escaped(255));
}

#[test]
fn orbit_goes_on_without_breakout() {
    assert_eq!(escape_step(0, false), Step::Iterate(1));
    assert_eq!(escape_step(254, false), Step::Iterate(255));
}

#[test]
fn budget_ends_at_last_step() {
    assert_eq!(NUM_LOOPS, 256);
    assert_eq!(escape_step(255, false), Step::Bounded);
}

#[test]
fn origin_never_escapes() {
    assert_eq!(escape_of(0.0, 0.0), None);
}

#[test]
fn far_point_escapes_at_first_step() {
    assert_eq!(escape_of(2.0, 2.0), Some(0));
}

#[test]
fn orbit_without_breakout_takes_whole_budget() {
    let mut i: usize = 0;
    let mut steps: usize = 0;
    loop {
        steps += 1;
        match escape_step(i, false) {
            Step::Iterate(next) => i = next,
            Step::Escaped(_) => panic!("no breakout was reported"),
            Step::Bounded => break,
        }
    }
    assert_eq!(steps, 256);
}

#[test]
fn escape_result_stays_within_budget() {
    for &(re, im) in &[(0.3, 0.5), (-0.75, 0.1), (0.26, 0.0), (-2.0, 0.0), (1.0, 1.0)] {
        if let Some(i) = escape_of(re, im) {
            assert!(i < 256);
        }
    }
}

#[test]
fn shade_of_results() {
    assert_eq!(shade(None), 0);
    assert_eq!(shade(Some(0)), 255);
    assert_eq!(shade(Some(10)), 245);
    assert_eq!(shade(Some(255)), 0);
}

#[test]
fn render_length_is_width_times_height() {
    assert_eq!(render((3, 2), |_| None).len(), 6);
    assert_eq!(render((7, 5), |_| Some(1)).len(), 35);
    assert_eq!(render((0, 4), |_| None).len(), 0);
    assert_eq!(render((4, 0), |_| None).len(), 0);
}

#[test]
fn render_is_row_major() {
    let pixels = render((3, 2), |(col, row)| Some(col + 10 * row));
    assert_eq!(pixels, vec![255, 254, 253, 245, 244, 243]);
}

#[test]
fn render_is_deterministic() {
    let sample = |(col, row): (usize, usize)| {
        escape_of(-2.0 + col as f64 * 0.25, 1.0 - row as f64 * 0.25)
    };
    let a = render((12, 8), sample);
    let b = render((12, 8), sample);
    assert_eq!(a, b);
}

#[test]
fn single_pixel_at_origin_is_black() {
    let bounds = (1usize, 1usize);
    let (left, top, right, bottom) = (0.0f64, 0.0f64, 0.0f64, 0.0f64);
    let pixels = render(bounds, |(col, row)| {
        let re = left + col as f64 * (right - left) / bounds.0 as f64;
        let im = top - row as f64 * (top - bottom) / bounds.1 as f64;
        escape_of(re, im)
    });
    assert_eq!(pixels, vec![0]);
}
