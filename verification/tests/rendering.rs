use mandelbrot::band_layout;
use mandelbrot::render;
use mandelbrot::shade;

/// The escape-time evaluation on double-precision complex numbers; the
/// library leaves floating-point arithmetic to its callers, so the tests
/// drive it with this evaluator.
fn escape_time(re: f64, im: f64, limit: u32) -> Option<u32> {
    let mut zr = 0.0f64;
    let mut zi = 0.0f64;
    for i in 0..limit {
        let next_r = zr * zr - zi * zi + re;
        let next_i = 2.0 * zr * zi + im;
        zr = next_r;
        zi = next_i;
        if zr * zr + zi * zi > 4.0 {
            return Some(i);
        }
    }
    None
}

fn pixel_to_point(
    bounds: (usize, usize),
    pixel: (usize, usize),
    upper_left: (f64, f64),
    lower_right: (f64, f64),
) -> (f64, f64) {
    let (width, height) = (lower_right.0 - upper_left.0, upper_left.1 - lower_right.1);
    (
        upper_left.0 + pixel.0 as f64 * width / bounds.0 as f64,
        upper_left.1 - pixel.1 as f64 * height / bounds.1 as f64,
    )
}

/// Renders the whole image the way the application does: the library computes
/// the band partition and fills each band's buffer, the caller supplies the
/// escape counts.
fn render_full(
    bounds: (usize, usize),
    upper_left: (f64, f64),
    lower_right: (f64, f64),
    workers: usize,
) -> Vec<u8> {
    let bands = band_layout(bounds.1, workers);
    let mut pixels = vec![0u8; bounds.0 * bounds.1];
    for band in bands {
        let (top, band_height) = band;
        let band_bounds = (bounds.0, band_height);
        let band_upper_left = pixel_to_point(bounds, (0, top), upper_left, lower_right);
        let band_lower_right =
            pixel_to_point(bounds, (bounds.0, top + band_height), upper_left, lower_right);
        let mut counts = Vec::with_capacity(bounds.0 * band_height);
        for row in 0..band_height {
            for col in 0..bounds.0 {
                let point = pixel_to_point(band_bounds, (col, row), band_upper_left, band_lower_right);
                counts.push(escape_time(point.0, point.1, 225));
            }
        }
        let mut buffer = vec![0u8; bounds.0 * band_height];
        render(&mut buffer, band_bounds, &counts);
        pixels[top * bounds.0..(top + band_height) * bounds.0].copy_from_slice(&buffer);
    }
    pixels
}

#[test]
fn shade_of_escape_outcomes() {
    assert_eq!(shade(None), 0);
    assert_eq!(shade(Some(0)), 255);
    assert_eq!(shade(Some(100)), 155);
    assert_eq!(shade(Some(224)), 31);
}

#[test]
fn render_shades_row_major() {
    let counts = vec![None, Some(0), Some(100), Some(224)];
    let mut pixels = vec![0u8; 4];
    render(&mut pixels, (2, 2), &counts);
    assert_eq!(pixels, vec![0, 255, 155, 31]);
}

#[test]
fn render_of_empty_band_writes_nothing() {
    let mut pixels: Vec<u8> = Vec::new();
    render(&mut pixels, (5, 0), &Vec::new());
    assert!(pixels.is_empty());
    render(&mut pixels, (0, 5), &Vec::new());
    assert!(pixels.is_empty());
}

#[test]
fn origin_never_escapes() {
    assert_eq!(escape_time(0.0, 0.0, 1), None);
    assert_eq!(escape_time(0.0, 0.0, 225), None);
    assert_eq!(escape_time(0.0, 0.0, 10000), None);
}

#[test]
fn rendering_twice_is_identical() {
    let first = render_full((40, 30), (-1.20, 0.35), (-1.0, 0.20), 3);
    let second = render_full((40, 30), (-1.20, 0.35), (-1.0, 0.20), 3);
    assert_eq!(first, second);
}

#[test]
fn worker_count_does_not_change_the_image() {
    let alone = render_full((40, 30), (-1.20, 0.35), (-1.0, 0.20), 1);
    let pooled = render_full((40, 30), (-1.20, 0.35), (-1.0, 0.20), 8);
    assert_eq!(alone, pooled);
}

#[test]
fn full_render_produces_one_byte_per_pixel() {
    let pixels = render_full((100, 100), (-1.20, 0.35), (-1.0, 0.20), 8);
    assert_eq!(pixels.len(), 10000);
    assert!(pixels.iter().any(|&b| b == 0));
    assert!(pixels.iter().any(|&b| b != 0));
}
