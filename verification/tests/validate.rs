use term_icon::raster::{grayscale, luma_of, GrayImage, RgbImage};
use term_icon::validate::{measure, CaptureGate, CaptureStats};

fn solid(color: (u8, u8, u8), w: u32, h: u32) -> RgbImage {
    RgbImage::from_pixel(w, h, color)
}

/// Shannon entropy of the luminance histogram, in bits.
fn entropy(stats: &CaptureStats) -> f64 {
    stats
        .histogram
        .iter()
        .filter(|n| **n > 0)
        .map(|n| {
            let p = *n as f64 / stats.pixels as f64;
            -p * p.log2()
        })
        .sum()
}

fn plausible(stats: &CaptureStats) -> bool {
    stats.passes(&CaptureGate::default(), entropy(stats) >= 0.3)
}

#[test]
fn blank_black_capture_is_rejected() {
    let stats = measure(&solid((0, 0, 0), 320, 200));
    assert!(!plausible(&stats));
}

#[test]
fn blank_white_desktop_capture_is_rejected() {
    let stats = measure(&solid((255, 255, 255), 320, 200));
    assert!(!plausible(&stats));
}

#[test]
fn noise_capture_passes() {
    let mut img = solid((0, 0, 0), 320, 200);
    let mut seed = 0x1234_5678_u32;
    for y in 0..200 {
        for x in 0..320 {
            seed = seed.wrapping_mul(1_664_525).wrapping_add(1_013_904_223);
            let v = (seed >> 24) as u8;
            img.put_pixel(x, y, (v, v, v));
        }
    }
    let stats = measure(&img);
    assert!(plausible(&stats), "{stats:?}");
}

#[test]
fn text_like_render_passes() {
    // Dark bg with bright glyph blobs of varying intensity: the
    // realistic antialiased case.
    let mut img = solid((10, 10, 10), 320, 200);
    for i in 0..40 {
        let v = (120 + (i % 30) * 4) as u8;
        for dy in 0..12 {
            for dx in 0..5 {
                img.put_pixel(10 + i * 7 + dx, 40 + dy, (v, v, v));
            }
        }
    }
    let stats = measure(&img);
    assert!(plausible(&stats), "{stats:?}");
}

#[test]
fn statistics_are_exact() {
    let mut img = solid((0, 0, 0), 2, 2);
    img.put_pixel(0, 0, (255, 255, 255));
    img.put_pixel(1, 0, (255, 0, 0));
    let stats = measure(&img);
    assert_eq!(stats.pixels, 4);
    assert_eq!(stats.unique_colors, 3);
    // 0.299 * 255 = 76.245.
    assert_eq!(stats.milli_sum, 255_000 + 76_245);
    assert_eq!(stats.histogram[0], 2);
    assert_eq!(stats.histogram[76], 1);
    assert_eq!(stats.histogram[255], 1);
}

#[test]
fn every_criterion_is_needed() {
    let mut img = solid((0, 0, 0), 10, 10);
    for x in 0..10 {
        img.put_pixel(x, 0, (200, 200, 200));
    }
    let stats = measure(&img);
    let gate = CaptureGate::default();
    assert!(stats.passes(&gate, true));
    assert!(!stats.passes(&gate, false));
    assert!(!stats.passes(
        &CaptureGate {
            min_luminance_std_dev: 61,
            ..gate
        },
        true
    ));
    assert!(stats.passes(
        &CaptureGate {
            min_luminance_std_dev: 60,
            ..gate
        },
        true
    ));
    assert!(!stats.passes(
        &CaptureGate {
            min_unique_colors: 3,
            ..gate
        },
        true
    ));
}

#[test]
fn luminance_follows_rec_601() {
    assert_eq!(luma_of((255, 0, 0)), 76);
    assert_eq!(luma_of((0, 255, 0)), 150);
    assert_eq!(luma_of((0, 0, 255)), 29);
    for v in 0..=255u8 {
        assert_eq!(luma_of((v, v, v)), v);
    }
    let gray: GrayImage = grayscale(&solid((0, 255, 0), 3, 2));
    assert_eq!((gray.width, gray.height), (3, 2));
    assert!(gray.data.iter().all(|v| *v == 150));
}

#[test]
fn deviation_is_measured_from_the_true_mean() {
    // Luminances 0.413 and 16.409: the deviation is 7.998, though the rounded
    // ones are 16 apart.
    let mut img = solid((1, 0, 1), 2, 1);
    img.put_pixel(1, 0, (7, 24, 2));
    let stats = measure(&img);
    assert!(!stats.passes(&CaptureGate::default(), true));
    let lower = CaptureGate {
        min_luminance_std_dev: 7,
        ..CaptureGate::default()
    };
    assert!(stats.passes(&lower, true));
}
