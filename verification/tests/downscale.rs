use quickview::geometry::Rect;
use quickview::ocr::downscale::{plan_downscale, upscale_bboxes, DEFAULT_MAX_OCR_DIMENSION};
use quickview::ocr::models::{OcrResult, OcrWord};

#[test]
fn below_and_at_threshold_are_untouched() {
    assert_eq!(plan_downscale(1000, 500, 4000), None);
    assert_eq!(plan_downscale(4000, 3000, 4000), None);
    assert_eq!(plan_downscale(3000, 4000, 4000), None);
}

#[test]
fn zero_disables_and_degenerate_dims_are_ignored() {
    assert_eq!(plan_downscale(100_000, 50, 0), None);
    assert_eq!(plan_downscale(0, 5000, 4000), None);
    assert_eq!(plan_downscale(5000, 0, 4000), None);
}

#[test]
fn above_threshold_scales_and_preserves_aspect() {
    let plan = plan_downscale(8000, 4000, 4000).unwrap();
    assert_eq!((plan.target_w, plan.target_h), (4000, 2000));
    assert_eq!(plan.factor_num as f64 / plan.factor_den as f64, 2.0);

    // Portrait: the larger dimension drives the factor.
    let plan = plan_downscale(3000, 6000, 4000).unwrap();
    assert_eq!((plan.target_w, plan.target_h), (2000, 4000));
    assert_eq!(plan.factor_num as f64 / plan.factor_den as f64, 1.5);
}

#[test]
fn extreme_aspect_never_reaches_zero() {
    let plan = plan_downscale(100_000, 50, 4000).unwrap();
    assert_eq!(plan.target_w, 4000);
    assert!(plan.target_h >= 1);
    assert_eq!(plan.target_h, 2); // 50 / 25 = 2

    let plan = plan_downscale(1_000_000, 1, 4000).unwrap();
    assert_eq!(plan.target_h, 1);
}

#[test]
fn targets_round_to_nearest_pixel() {
    // 5000 x 3333 at max 4000: 3333 * 4000 / 5000 = 2666.4 -> 2666.
    let plan = plan_downscale(5000, 3333, 4000).unwrap();
    assert_eq!((plan.target_w, plan.target_h), (4000, 2666));
    // 5000 x 3335: 2668.0 exactly.
    let plan = plan_downscale(5000, 3335, 4000).unwrap();
    assert_eq!(plan.target_h, 2668);
    // 8000 x 4001: 2000.5 rounds up to 2001.
    let plan = plan_downscale(8000, 4001, 4000).unwrap();
    assert_eq!(plan.target_h, 2001);
    assert_eq!(DEFAULT_MAX_OCR_DIMENSION, 4000);
}

fn word(x: i64, y: i64, w: i64, h: i64) -> OcrWord {
    OcrWord {
        text: "hi".into(),
        confidence: "90".into(),
        bbox: Rect { x, y, w, h, den_x: 1, den_y: 1 },
        order: 0,
    }
}

/// A box coordinate in pixels.
fn px(n: i64, den: u32) -> f64 {
    n as f64 / den as f64
}

#[test]
fn upscale_maps_boxes_back_to_original_space() {
    // Tesseract saw a 4000 x 2000 copy of an 8000 x 4000 image.
    let mut result = OcrResult {
        words: vec![word(61, 228, 39, 45)],
    };
    assert!(upscale_bboxes(&mut result, 8000, 4000, 4000, 2000));
    let b = result.words[0].bbox;
    assert_eq!((b.x, b.w, b.den_x), (61 * 8000, 39 * 8000, 4000));
    assert_eq!((b.y, b.h, b.den_y), (228 * 4000, 45 * 4000, 2000));
    assert_eq!((px(b.x, b.den_x), px(b.y, b.den_y), px(b.w, b.den_x), px(b.h, b.den_y)), (122.0, 456.0, 78.0, 90.0));
    assert_eq!(result.words[0].text, "hi");
    assert_eq!(result.words[0].confidence, "90");
}

#[test]
fn upscale_uses_per_axis_factors_exactly() {
    // 6000 x 3333 fed as 4000 x 2666.
    let mut result = OcrResult {
        words: vec![word(1, 10, 3, 3), word(-4, 0, 1, 1)],
    };
    assert!(upscale_bboxes(&mut result, 6000, 4000, 3333, 2666));
    let b = result.words[0].bbox;
    // x: 1 * 3/2 = 1.5 exactly; y: 10 * 3333/2666.
    assert_eq!(px(b.x, b.den_x), 1.5);
    assert_eq!(px(b.w, b.den_x), 4.5);
    assert_eq!(b.y as i128 * 2666, 10 * 3333 * b.den_y as i128);
    assert_eq!(px(result.words[1].bbox.x, result.words[1].bbox.den_x), -6.0);
}

#[test]
fn upscale_round_trips_within_epsilon() {
    let factor = 8000.0 / 4000.0;
    let original = (123.0, 456.0, 78.0, 90.0);
    // What tesseract would report in downscaled space: each side halved,
    // held exactly in half pixels.
    let mut result = OcrResult {
        words: vec![OcrWord {
            text: "hi".into(),
            confidence: "90".into(),
            bbox: Rect { x: 123, y: 456, w: 78, h: 90, den_x: 2, den_y: 2 },
            order: 0,
        }],
    };
    assert_eq!(px(result.words[0].bbox.x, 2), original.0 / factor);
    assert!(upscale_bboxes(&mut result, 8000, 4000, 8000, 4000));
    let got = result.words[0].bbox;
    for (a, b) in [
        (px(got.x, got.den_x), original.0),
        (px(got.y, got.den_y), original.1),
        (px(got.w, got.den_x), original.2),
        (px(got.h, got.den_y), original.3),
    ] {
        assert!((a - b).abs() < 1e-9, "{a} vs {b}");
    }
}

#[test]
fn unrepresentable_upscale_changes_nothing() {
    let mut result = OcrResult {
        words: vec![word(1, 1, 1, 1), word(i64::MAX / 2, 0, 1, 1)],
    };
    assert!(!upscale_bboxes(&mut result, 3, 2, 1, 1));
    assert_eq!(result.words[0].bbox, Rect { x: 1, y: 1, w: 1, h: 1, den_x: 1, den_y: 1 });
    assert_eq!(result.words[1].bbox.x, i64::MAX / 2);
}
