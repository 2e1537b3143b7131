use improc::algorithm::Padding;
use improc::model::{ColorSpace, Image};

fn mse(a: &Image<u8>, b: &Image<u8>) -> f64 {
    let sse = improc::metrics::sum_squared_error(a, b);
    (sse as f64) / (a.data.len() as f64) / (255.0 * 255.0)
}

fn smooth_rgb(height: usize, width: usize) -> Image<u8> {
    let mut img: Image<u8> = Image::zeros(height, width, 3);
    for y in 0..height {
        for x in 0..width {
            img.set_sample(x, y, 0, (40 + (x + y) / 2) as u8);
            img.set_sample(x, y, 1, (80 + x / 3) as u8);
            img.set_sample(x, y, 2, (120 + y / 3) as u8);
        }
    }
    img
}

#[test]
fn salt_and_pepper_median() {
    let mut img = smooth_rgb(48, 48);

    let original = img.clone();
    img.salt_and_pepper(25);

    let mut fixed = img.clone();
    fixed.median_filter(3, Padding::Repeat);

    let err_orig_noise = mse(&original, &img);
    let err_orig_fixed = mse(&original, &fixed);

    assert!(err_orig_noise > err_orig_fixed);
    assert!(err_orig_fixed < 1e-3);
}

#[test]
fn convolution_identity() {
    // A kernel that is all zero except a one at the center is the identity.
    let mut img = smooth_rgb(12, 10);
    let original = img.clone();
    let mut kernel: Vec<i64> = vec![0; 9];
    kernel[4] = 1;
    img.convolution(1, 1, &kernel, 1, Padding::Zeros);
    assert_eq!(img.data, original.data);
}

#[test]
fn convolution_shift() {
    // A kernel with the one moved off-center shifts samples.
    let mut img: Image<u8> = Image::zeros(1, 4, 1);
    for x in 0..4 {
        img.set_sample(x, 0, 0, (x as u8) * 10);
    }
    // Window offsets pair row-major: index 2 is (dx, dy) = (+1, -1) for a
    // 3x3 window, so pick the 1x3 window instead: indexes 0..2 are dx -1..1.
    let kernel: Vec<i64> = vec![0, 0, 1];
    img.convolution(0, 1, &kernel, 1, Padding::Repeat);
    assert_eq!(img.data, vec![10, 20, 30, 30]);
}

#[test]
fn blur_averages() {
    let mut img: Image<u8> = Image::zeros(1, 3, 1);
    img.set_sample(0, 0, 0, 30);
    img.set_sample(1, 0, 0, 60);
    img.set_sample(2, 0, 0, 90);
    img.blur(1, Padding::Repeat);
    // Middle pixel: round((3*30 + 3*60 + 3*90) / 9) = 60.
    assert_eq!(img.data[1], 60);
}

#[test]
fn gaussian_kernel_normalized() {
    // The divisor is exactly the sum of the weights, for several shapes.
    for (window, num, den) in [(1usize, 1u32, 1u32), (2, 15, 10), (3, 7, 2), (1, 1, 2)] {
        let (kernel, divisor) = improc::algorithm::gaussian_kernel(window, num, den);
        let sum: i64 = kernel.iter().sum();
        assert_eq!(sum, divisor);
        assert!(divisor >= 65536);
        let side = 2 * window + 1;
        assert_eq!(kernel.len(), side * side);
        // The center weight is the largest and equals the Q16 unit.
        assert_eq!(kernel[side * window + window], 65536);
    }
}

#[test]
fn gaussian_blur_preserves_uniform() {
    let mut img: Image<u8> = Image::zeros(6, 6, 1);
    for y in 0..6 {
        for x in 0..6 {
            img.set_sample(x, y, 0, 200);
        }
    }
    img.gaussian_blur(1, 1, 1, Padding::Repeat);
    assert!(img.data.iter().all(|&v| v == 200));
}

#[test]
fn median_filter_exact_window() {
    let mut img: Image<u8> = Image::zeros(3, 3, 1);
    let vals = [9u8, 1, 8, 2, 7, 3, 6, 4, 5];
    for y in 0..3 {
        for x in 0..3 {
            img.set_sample(x, y, 0, vals[y * 3 + x]);
        }
    }
    let mut filtered = img.clone();
    filtered.median_filter(1, Padding::Repeat);
    // Center pixel: the window repeats nothing, so the median of 1..=9 is 5.
    assert_eq!(filtered.data[4], 5);
}

#[test]
fn median_filter_removes_single_outlier() {
    let mut img: Image<u8> = Image::zeros(5, 5, 1);
    for y in 0..5 {
        for x in 0..5 {
            img.set_sample(x, y, 0, 100);
        }
    }
    img.set_sample(2, 2, 0, 255);
    img.median_filter(1, Padding::Repeat);
    assert!(img.data.iter().all(|&v| v == 100));
}

#[test]
fn sobel_finds_vertical_edge() {
    let mut img: Image<u8> = Image::zeros(8, 8, 1);
    img.color = ColorSpace::Gray;
    for y in 0..8 {
        for x in 4..8 {
            img.set_sample(x, y, 0, 255);
        }
    }
    let mag = img.sobel();
    assert_eq!(mag.channels, 1);
    // The strongest response sits along the edge and far pixels are flat.
    assert_eq!(mag.data[8 * 3 + 4], 255);
    assert_eq!(mag.data[8 * 3 + 0], 0);
    assert_eq!(mag.data[8 * 3 + 7], 0);
}

#[test]
fn sobel_of_uniform_is_zero() {
    let mut img: Image<u8> = Image::zeros(6, 6, 1);
    img.color = ColorSpace::Gray;
    for k in 0..36 {
        img.data[k] = 77;
    }
    let mag = img.sobel();
    assert!(mag.data.iter().all(|&v| v == 0));
}

#[test]
fn sliding_window_pads_zeros_and_repeats() {
    let mut img: Image<u8> = Image::zeros(2, 2, 1);
    img.set_sample(0, 0, 0, 10);
    img.set_sample(1, 0, 0, 20);
    img.set_sample(0, 1, 0, 30);
    img.set_sample(1, 1, 0, 40);
    let wz = img.sliding_window(0, 0, 1, 1, 0, Padding::Zeros);
    assert_eq!(wz, vec![0, 0, 0, 0, 10, 20, 0, 30, 40]);
    let wr = img.sliding_window(0, 0, 1, 1, 0, Padding::Repeat);
    assert_eq!(wr, vec![10, 10, 20, 10, 10, 20, 30, 30, 40]);
}

#[test]
fn salt_and_pepper_only_extremes() {
    let mut img = smooth_rgb(16, 16);
    let original = img.clone();
    img.salt_and_pepper(50);
    for (a, b) in img.data.iter().zip(original.data.iter()) {
        assert!(a == b || *a == 0 || *a == 255);
    }
}

#[test]
fn salt_and_pepper_zero_percent_is_noop() {
    let mut img = smooth_rgb(8, 8);
    let original = img.clone();
    img.salt_and_pepper(0);
    assert_eq!(img.data, original.data);
}

#[test]
fn salt_and_pepper_hundred_percent_all_extremes() {
    let mut img = smooth_rgb(8, 8);
    img.salt_and_pepper(100);
    assert!(img.data.iter().all(|&v| v == 0 || v == 255));
}

#[test]
fn sum_squared_error_exact() {
    let mut a: Image<u8> = Image::zeros(1, 2, 1);
    let mut b: Image<u8> = Image::zeros(1, 2, 1);
    a.set_sample(0, 0, 0, 10);
    b.set_sample(0, 0, 0, 13);
    a.set_sample(1, 0, 0, 200);
    b.set_sample(1, 0, 0, 196);
    assert_eq!(improc::metrics::sum_squared_error(&a, &b), 9 + 16);
}
