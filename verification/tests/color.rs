use improc::algorithm::{hsl_exec, luma_exec, rgb_exec};
use improc::model::{ColorSpace, Image};

fn smooth_rgb(height: usize, width: usize) -> Image<u8> {
    let mut img: Image<u8> = Image::zeros(height, width, 3);
    for y in 0..height {
        for x in 0..width {
            img.set_sample(x, y, 0, ((x * 3 + y) % 256) as u8);
            img.set_sample(x, y, 1, ((x + 2 * y) % 256) as u8);
            img.set_sample(x, y, 2, ((x * 2 + y * 2) % 256) as u8);
        }
    }
    img
}

fn mse(a: &Image<u8>, b: &Image<u8>) -> f64 {
    let sse = improc::metrics::sum_squared_error(a, b);
    (sse as f64) / (a.data.len() as f64) / (255.0 * 255.0)
}

#[test]
fn color_conversions() {
    let img = smooth_rgb(32, 48);
    let mut transformed = img.clone();

    transformed.hsl();
    transformed.rgb();

    let err = mse(&img, &transformed);

    assert!(err < 1e-3);
}

#[test]
fn rgb_hsl_round_trip_sweep() {
    // A dense sweep through RGB space: one pixel per sampled color.
    let mut colors: Vec<(u8, u8, u8)> = Vec::new();
    for r in (0..256).step_by(17) {
        for g in (0..256).step_by(17) {
            for b in (0..256).step_by(17) {
                colors.push((r as u8, g as u8, b as u8));
            }
        }
    }
    let n = colors.len();
    let mut img: Image<u8> = Image::zeros(1, n, 3);
    for (x, c) in colors.iter().enumerate() {
        img.set_sample(x, 0, 0, c.0);
        img.set_sample(x, 0, 1, c.1);
        img.set_sample(x, 0, 2, c.2);
    }
    let orig = img.clone();
    img.hsl();
    img.rgb();
    assert!(mse(&orig, &img) < 1e-3);
}

#[test]
fn conversions_are_no_ops_on_same_space() {
    let mut img = smooth_rgb(8, 8);
    let before = img.data.clone();
    img.rgb();
    assert_eq!(img.data, before);
    assert_eq!(img.color, ColorSpace::RGB);

    img.grayscale();
    let gray_data = img.data.clone();
    img.grayscale();
    assert_eq!(img.data, gray_data);
    assert_eq!(img.color, ColorSpace::Gray);

    let mut hslimg = smooth_rgb(8, 8);
    hslimg.hsl();
    let hsl_data = hslimg.data.clone();
    hslimg.hsl();
    assert_eq!(hslimg.data, hsl_data);
    assert_eq!(hslimg.color, ColorSpace::HSL);
}

#[test]
fn hsl_accepts_three_channel_gray() {
    // A gray-tagged buffer with three (equal) channels, as grayscale leaves
    // it, converts by the RGB formulas directly.
    let mut img = smooth_rgb(4, 4);
    img.grayscale();
    assert_eq!(img.channels, 3);
    img.hsl();
    assert_eq!(img.color, ColorSpace::HSL);
    // Equal channels are achromatic: hue and saturation are zero.
    for q in 0..16 {
        assert_eq!(img.data[3 * q], 0);
        assert_eq!(img.data[3 * q + 1], 0);
    }
}

#[test]
fn achromatic_round_trip_exact() {
    // Gray colors survive the HSL round trip bit for bit.
    let mut img: Image<u8> = Image::zeros(1, 256, 3);
    for v in 0..256 {
        img.set_sample(v, 0, 0, v as u8);
        img.set_sample(v, 0, 1, v as u8);
        img.set_sample(v, 0, 2, v as u8);
    }
    let orig = img.clone();
    img.hsl();
    img.rgb();
    assert_eq!(img.data, orig.data);
}

#[test]
fn luma_formula_exact() {
    // 0.299 * 255 = 76.245 -> floor((299 * 255) / 1000) = 76
    assert_eq!(luma_exec(255, 0, 0), 76);
    assert_eq!(luma_exec(0, 255, 0), 149);
    assert_eq!(luma_exec(0, 0, 255), 29);
    assert_eq!(luma_exec(255, 255, 255), 255);
    assert_eq!(luma_exec(0, 0, 0), 0);
}

#[test]
fn grayscale_replicates_luma() {
    let mut img: Image<u8> = Image::zeros(1, 1, 3);
    img.set_sample(0, 0, 0, 255);
    img.set_sample(0, 0, 1, 0);
    img.set_sample(0, 0, 2, 0);
    img.grayscale();
    assert_eq!(img.data, vec![76, 76, 76]);
    assert_eq!(img.color, ColorSpace::Gray);
}

#[test]
fn hsl_of_pure_red() {
    let (h, s, l) = hsl_exec(255, 0, 0);
    assert_eq!(h, 0);
    assert_eq!(s, 255);
    assert_eq!(l, 128);
    let (r, g, b) = rgb_exec(h, s, l);
    assert_eq!(r, 255);
    assert!(g <= 1 && b <= 1);
}

#[test]
fn hsl_of_gray_is_achromatic() {
    let (h, s, l) = hsl_exec(100, 100, 100);
    assert_eq!((h, s), (0, 0));
    assert_eq!(l, 100);
    // Saturation is defined as zero at the lightness extremes.
    assert_eq!(hsl_exec(0, 0, 0), (0, 0, 0));
    assert_eq!(hsl_exec(255, 255, 255), (0, 0, 255));
}

#[test]
fn hsl_sectors_differ() {
    // A saturated green and a saturated blue must invert into different
    // channels (sectors 2-5 must not collapse into one formula).
    let (hg, sg, lg) = hsl_exec(0, 255, 0);
    let (r1, g1, b1) = rgb_exec(hg, sg, lg);
    assert!(g1 >= 250 && r1 <= 5 && b1 <= 5);
    let (hb, sb, lb) = hsl_exec(0, 0, 255);
    let (r2, g2, b2) = rgb_exec(hb, sb, lb);
    assert!(b2 >= 250 && r2 <= 5 && g2 <= 5);
    let (hm, sm, lm) = hsl_exec(255, 0, 255);
    let (r3, g3, b3) = rgb_exec(hm, sm, lm);
    assert!(r3 >= 250 && b3 >= 250 && g3 <= 5);
}

#[test]
fn gray_to_three_channels() {
    let mut img: Image<u8> = Image::zeros(2, 2, 1);
    img.color = ColorSpace::Gray;
    img.set_sample(0, 0, 0, 9);
    img.set_sample(1, 1, 0, 200);
    let three = img.to_three_channels();
    assert_eq!(three.channels, 3);
    assert_eq!(three.data[0], 9);
    assert_eq!(three.data[1], 9);
    assert_eq!(three.data[2], 9);
    assert_eq!(three.data[9], 200);
}

#[test]
fn to_single_channel_takes_first() {
    let mut img = smooth_rgb(4, 4);
    img.grayscale();
    let single = img.to_single_channel();
    assert_eq!(single.channels, 1);
    assert_eq!(single.data.len(), 16);
    for q in 0..16 {
        assert_eq!(single.data[q], img.data[3 * q]);
    }
}

#[test]
fn gradient_interpolates() {
    let g = improc::colors::Gradient::simple(vec![(0, 0, 0), (255, 255, 255)]);
    assert_eq!(g.get_color(0, 255), (0, 0, 0));
    assert_eq!(g.get_color(255, 255), (255, 255, 255));
    assert_eq!(g.get_color(128, 255), (128, 128, 128));
    let two = improc::colors::Gradient::simple(vec![(255, 0, 0), (0, 0, 255)]);
    let (r, _g, b) = two.get_color(64, 255);
    assert!(r > 180 && b < 80);
}

#[test]
fn fake_color_maps_bytes() {
    let g = improc::colors::Gradient::simple(vec![(0, 0, 0), (255, 255, 255)]);
    let mut img: Image<u8> = Image::zeros(1, 2, 1);
    img.color = ColorSpace::Gray;
    img.set_sample(1, 0, 0, 255);
    let colored = img.fake_color(&g);
    assert_eq!(colored.channels, 3);
    assert_eq!(&colored.data[0..3], &[0, 0, 0]);
    assert_eq!(&colored.data[3..6], &[255, 255, 255]);
}

#[test]
fn threshold_marks_strictly_above() {
    let mut img: Image<u8> = Image::zeros(1, 3, 1);
    img.set_sample(0, 0, 0, 10);
    img.set_sample(1, 0, 0, 11);
    img.set_sample(2, 0, 0, 200);
    let t = img.threshold(10);
    assert_eq!(t.data, vec![false, true, true]);
}

#[test]
fn casts_preserve_bytes() {
    let mut img: Image<u8> = Image::zeros(1, 2, 1);
    img.set_sample(0, 0, 0, 0);
    img.set_sample(1, 0, 0, 77);
    let b = img.to_bool();
    assert_eq!(b.data, vec![false, true]);
    let u = b.to_u8();
    assert_eq!(u.data, vec![0, 255]);
}

#[test]
fn normalize_scales_to_full_range() {
    let mut img: Image<u8> = Image::zeros(1, 3, 1);
    img.set_sample(0, 0, 0, 0);
    img.set_sample(1, 0, 0, 50);
    img.set_sample(2, 0, 0, 100);
    img.normalize();
    assert_eq!(img.data, vec![0, 128, 255]);
}
