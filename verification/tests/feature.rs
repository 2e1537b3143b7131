use improc::keypoints::{Descriptor, KeyPoint, KeyPointShape, Rotation};
use improc::model::{ColorSpace, Image};

fn gray_image(height: usize, width: usize, fill: u8) -> Image<u8> {
    let mut img: Image<u8> = Image::zeros(height, width, 1);
    img.color = ColorSpace::Gray;
    for k in 0..img.data.len() {
        img.data[k] = fill;
    }
    img
}

#[test]
fn hamming_distance_counts_bits() {
    let mut a = [0u8; 64];
    let mut b = [0u8; 64];
    a[0] = 0b1010_1010;
    b[0] = 0b0101_0101;
    a[63] = 0xff;
    let da = Descriptor::BRIEF(a);
    let db = Descriptor::BRIEF(b);
    assert_eq!(da.distance(&db), 16);
    assert_eq!(da.distance(&da), 0);
    assert_eq!(da.inner_array()[0], 0b1010_1010);
}

#[test]
fn keypoint_new_defaults() {
    let kp = KeyPoint::new(5, 7, (0, 255, 0), KeyPointShape::Dot);
    assert_eq!((kp.x, kp.y), (5, 7));
    assert_eq!(kp.octave, 0);
    assert_eq!(kp.score, 0);
    assert_eq!(kp.angle, Rotation { c: 16384, s: 0 });
    assert!(matches!(kp.descriptor, Descriptor::Empty));
}

#[test]
fn manhattan_distance_sums_axes() {
    let a = KeyPoint::new(2, 9, (0, 0, 0), KeyPointShape::Dot);
    let b = KeyPoint::new(7, 3, (0, 0, 0), KeyPointShape::Dot);
    assert_eq!(a.manhattan_distance(&b), 11);
    assert_eq!(b.manhattan_distance(&a), 11);
}

#[test]
fn shape_points_cover_shapes() {
    let kp = KeyPoint::new(10, 10, (0, 0, 0), KeyPointShape::Dot);
    assert_eq!(kp.get_shape_points(), vec![(10, 10)]);
    let cross = KeyPoint::new(10, 10, (0, 0, 0), KeyPointShape::Cross);
    let pts = cross.get_shape_points();
    assert_eq!(pts.len(), 9);
    assert!(pts.contains(&(10, 10)));
    assert!(pts.contains(&(8, 8)));
    assert!(pts.contains(&(12, 12)));
    let square = KeyPoint::new(10, 10, (0, 0, 0), KeyPointShape::Square);
    assert_eq!(square.get_shape_points().len(), 16);
}

#[test]
fn draw_paints_in_bounds() {
    let mut img: Image<u8> = Image::zeros(5, 5, 3);
    let kp = KeyPoint::new(0, 0, (9, 8, 7), KeyPointShape::BigDot);
    kp.draw(&mut img);
    // The center pixel took the color; out-of-bounds points were skipped.
    assert_eq!(img.get_pixel(0, 0), vec![9, 8, 7]);
    assert_eq!(img.get_pixel(1, 1), vec![9, 8, 7]);
    assert_eq!(img.get_pixel(3, 3), vec![0, 0, 0]);
}

#[test]
fn nms_cluster_keeps_single_maximum() {
    let mut kps = Vec::new();
    for (x, y, score) in [(10usize, 10usize, 5i32), (11, 10, 9), (10, 11, 3), (12, 12, 7)] {
        let mut kp = KeyPoint::new(x, y, (0, 0, 0), KeyPointShape::Dot);
        kp.score = score;
        kps.push(kp);
    }
    let survivors = improc::features::non_maximum_suppression(&kps, 100);
    assert_eq!(survivors.len(), 1);
    assert_eq!(survivors[0].score, 9);
}

#[test]
fn nms_keeps_ties_and_far_points() {
    let mut a = KeyPoint::new(0, 0, (0, 0, 0), KeyPointShape::Dot);
    a.score = 5;
    let mut b = KeyPoint::new(1, 0, (0, 0, 0), KeyPointShape::Dot);
    b.score = 5;
    let mut c = KeyPoint::new(100, 100, (0, 0, 0), KeyPointShape::Dot);
    c.score = 1;
    let kps = vec![a, b, c];
    let survivors = improc::features::non_maximum_suppression(&kps, 25);
    // Equal scores never eliminate each other; the far point is unchallenged.
    assert_eq!(survivors.len(), 3);
}

#[test]
fn fast_detects_isolated_peak() {
    let mut img = gray_image(32, 32, 0);
    img.set_sample(15, 16, 0, 200);
    let kps = img.fast(50, 0, 3);
    assert_eq!(kps.len(), 1);
    assert_eq!((kps[0].x, kps[0].y), (15, 16));
    // The score is the summed contrast against the circle.
    assert_eq!(kps[0].score, 16 * 200);
}

#[test]
fn fast_rejects_uniform_image() {
    let img = gray_image(32, 32, 128);
    let kps = img.fast(10, 0, 3);
    assert!(kps.is_empty());
}

#[test]
fn fast_suppression_zero_keeps_all() {
    let mut img = gray_image(40, 40, 0);
    img.set_sample(10, 10, 0, 200);
    img.set_sample(14, 10, 0, 200);
    let unsuppressed = img.fast(50, 0, 3);
    assert_eq!(unsuppressed.len(), 2);
    let suppressed = img.fast(50, 100, 3);
    // Equal scores within the radius survive together by design.
    assert_eq!(suppressed.len(), 2);
}

#[test]
fn harris_detects_corner() {
    // A bright quadrant with a single interior corner.
    let mut img = gray_image(24, 24, 0);
    for y in 8..24 {
        for x in 8..24 {
            img.set_sample(x, y, 0, 200);
        }
    }
    let kps = img.harris_corners(120, 0);
    assert!(!kps.is_empty());
    for kp in &kps {
        assert!(kp.x >= 7 && kp.x <= 9, "stray keypoint at ({}, {})", kp.x, kp.y);
        assert!(kp.y >= 7 && kp.y <= 9, "stray keypoint at ({}, {})", kp.x, kp.y);
    }
}

#[test]
fn harris_rejects_uniform_image() {
    let img = gray_image(16, 16, 90);
    let kps = img.harris_corners(10, 0);
    assert!(kps.is_empty());
}

#[test]
fn compute_angle_follows_centroid() {
    // All mass to the right of the keypoint: the direction points along +x.
    let mut img = gray_image(64, 64, 0);
    for y in 20..44 {
        for x in 33..44 {
            img.set_sample(x, y, 0, 255);
        }
    }
    let mut kp = KeyPoint::new(32, 32, (0, 0, 0), KeyPointShape::Dot);
    img.compute_angle(&mut kp);
    assert!(kp.angle.c > 12000, "cos was {}", kp.angle.c);
    assert!(kp.angle.s.abs() < 9000, "sin was {}", kp.angle.s);

    // All mass below: the direction points along +y.
    let mut img2 = gray_image(64, 64, 0);
    for y in 33..44 {
        for x in 20..44 {
            img2.set_sample(x, y, 0, 255);
        }
    }
    let mut kp2 = KeyPoint::new(32, 32, (0, 0, 0), KeyPointShape::Dot);
    img2.compute_angle(&mut kp2);
    assert!(kp2.angle.s > 12000, "sin was {}", kp2.angle.s);
}

fn textured_patch(seed: u64) -> Image<u8> {
    // A deterministic pseudo-random texture.
    let mut img = gray_image(64, 64, 0);
    let mut state = seed;
    for k in 0..img.data.len() {
        state = state.wrapping_mul(6364136223846793005).wrapping_add(1442695040888963407);
        img.data[k] = (state >> 56) as u8;
    }
    img
}

fn rotate90(img: &Image<u8>) -> Image<u8> {
    // Rotates a square single-channel image a quarter turn counterclockwise
    // around its center pixel (width and height odd-sized use below keeps the
    // center fixed for 65x65-style grids; 64x64 here pairs center 32).
    let n = img.width;
    let mut out = gray_image(n, n, 0);
    for y in 0..n {
        for x in 0..n {
            // (x, y) relative to center c maps from (cy - y + cx, x - cx + cy).
            let c = 32i64;
            let sx = c + (y as i64 - c);
            let sy = c - (x as i64 - c);
            if sx >= 0 && sy >= 0 && (sx as usize) < n && (sy as usize) < n {
                let v = img.get_sample(sx as usize, sy as usize, 0);
                out.set_sample(x, y, 0, v);
            }
        }
    }
    out
}

#[test]
fn rotated_brief_is_rotation_invariant() {
    let img = textured_patch(11);
    let rot = rotate90(&img);
    let kp = KeyPoint::new(32, 32, (0, 0, 0), KeyPointShape::Dot);
    let mut kps_a = vec![kp];
    let mut kps_b = vec![kp];
    img.rotated_brief(&mut kps_a);
    rot.rotated_brief(&mut kps_b);
    let d = kps_a[0].descriptor.distance(&kps_b[0].descriptor);
    // The orientation rotates with the patch, so the descriptor barely moves
    // (sampling-grid quantization may flip a few near-tie comparisons).
    assert!(d <= 80, "rotated descriptor distance was {}", d);
    // A different texture is far away: the invariance is not vacuous.
    let other = textured_patch(99);
    let mut kps_c = vec![kp];
    other.rotated_brief(&mut kps_c);
    let far = kps_a[0].descriptor.distance(&kps_c[0].descriptor);
    assert!(far > 150, "unrelated descriptor distance was only {}", far);
}

#[test]
fn plain_brief_fills_descriptors() {
    let img = textured_patch(5);
    let kp = KeyPoint::new(32, 32, (0, 0, 0), KeyPointShape::Dot);
    let mut kps = vec![kp];
    img.brief(&mut kps);
    assert!(matches!(kps[0].descriptor, Descriptor::BRIEF(_)));
    // Deterministic: computing it again gives the identical bit pattern.
    let mut again = vec![kp];
    img.brief(&mut again);
    assert_eq!(kps[0].descriptor.distance(&again[0].descriptor), 0);
}

#[test]
fn orb_finds_oriented_keypoints() {
    let mut img = gray_image(128, 128, 0);
    for (x, y) in [(60usize, 60usize), (70, 64), (64, 72)] {
        img.set_sample(x, y, 0, 220);
    }
    let kps = img.orb(10, 0);
    assert!(!kps.is_empty());
    for kp in &kps {
        assert!(matches!(kp.descriptor, Descriptor::RBRIEF(_)));
        assert!(kp.octave <= 3);
        assert!(kp.x < 128 && kp.y < 128);
    }
}

#[test]
fn half_downsample_nearest() {
    let mut img = gray_image(4, 4, 0);
    for y in 0..4 {
        for x in 0..4 {
            img.set_sample(x, y, 0, (y * 4 + x) as u8 * 10);
        }
    }
    let half = img.half_downsample();
    assert_eq!((half.width, half.height), (2, 2));
    assert_eq!(half.data, vec![0, 20, 80, 100]);
}

#[test]
fn match_ratio_test() {
    // Descriptors at Hamming distances 5 and 50 from the query: accepted.
    let query = [0u8; 64];
    let mut near = [0u8; 64];
    near[0] = 0b1_1111; // 5 bits
    let mut far = [0u8; 64];
    for k in 0..6 {
        far[k] = 0xff; // 48 bits
    }
    far[6] = 0b11; // 50 bits
    let mk = |d: [u8; 64], x: usize| {
        let mut kp = KeyPoint::new(x, 0, (0, 0, 0), KeyPointShape::Dot);
        kp.descriptor = Descriptor::RBRIEF(d);
        kp
    };
    let from = vec![mk(query, 0)];
    let to = vec![mk(near, 1), mk(far, 2)];
    let matches = improc::matching::match_descriptors(&from, &to, 4, 5);
    assert_eq!(matches.len(), 1);
    assert_eq!(matches[0].1.x, 1);

    // Near-tied distances 40 and 45: rejected.
    let mut d40 = [0u8; 64];
    for k in 0..5 {
        d40[k] = 0xff;
    }
    let mut d45 = [0u8; 64];
    for k in 8..13 {
        d45[k] = 0xff;
    }
    d45[13] = 0b1_1111;
    let to2 = vec![mk(d40, 1), mk(d45, 2)];
    let matches2 = improc::matching::match_descriptors(&from, &to2, 4, 5);
    assert!(matches2.is_empty());

    // Fewer than two candidates: silently dropped.
    let to3 = vec![mk(near, 1)];
    let matches3 = improc::matching::match_descriptors(&from, &to3, 4, 5);
    assert!(matches3.is_empty());
}
