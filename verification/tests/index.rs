use quickview::geometry::Rect;
use quickview::ocr::index::OcrWordIndex;
use quickview::ocr::models::OcrWord;

fn w(text: &str, bbox: Rect, order: usize) -> OcrWord {
    OcrWord {
        text: text.to_string(),
        confidence: "99.0".to_string(),
        bbox,
        order,
    }
}

#[test]
fn query_returns_intersecting_words_only() {
    let words = vec![
        w("a", Rect { x: 10, y: 10, w: 10, h: 10, den_x: 1, den_y: 1 }, 0),
        w("b", Rect { x: 300, y: 10, w: 10, h: 10, den_x: 1, den_y: 1 }, 1),
        w("c", Rect { x: 10, y: 300, w: 10, h: 10, den_x: 1, den_y: 1 }, 2),
    ];

    let mut idx = OcrWordIndex::build_with_cell_size(&words, 1000, 1000, 64);
    let r = Rect { x: 290, y: 0, w: 50, h: 50, den_x: 1, den_y: 1 };
    let mut out = idx.query_intersecting(&words, &r);
    out.sort_unstable();

    assert_eq!(out, vec![1]);
}

#[test]
fn query_deduplicates_words_that_span_multiple_cells() {
    let words = vec![w("x", Rect { x: 60, y: 60, w: 10, h: 10, den_x: 1, den_y: 1 }, 0)];

    // With cell_size=64, this bbox overlaps both cell (0,0) and (1,1).
    let mut idx = OcrWordIndex::build_with_cell_size(&words, 256, 256, 64);
    let r = Rect { x: 0, y: 0, w: 200, h: 200, den_x: 1, den_y: 1 };
    let out = idx.query_intersecting(&words, &r);

    assert_eq!(out, vec![0]);
}

#[test]
fn degenerate_rects_still_hit_via_intersects_semantics() {
    let words = vec![w("a", Rect { x: 10, y: 10, w: 10, h: 10, den_x: 1, den_y: 1 }, 0)];
    let mut idx = OcrWordIndex::build_with_cell_size(&words, 100, 100, 32);

    // Point hit inside the word bbox.
    let p = Rect { x: 15, y: 15, w: 0, h: 0, den_x: 1, den_y: 1 };
    assert_eq!(idx.query_intersecting(&words, &p), vec![0]);
}

#[test]
fn query_matches_a_full_scan() {
    let mut words = Vec::new();
    for i in 0..40i64 {
        let x = (i * 37) % 900 - 20;
        let y = (i * 53) % 700 - 10;
        words.push(w("w", Rect { x, y, w: 5 + i % 90, h: 3 + i % 40, den_x: 1, den_y: 1 }, i as usize));
    }
    words.push(w("flat", Rect { x: 100, y: 100, w: 0, h: 10, den_x: 1, den_y: 1 }, 40));
    let mut idx = OcrWordIndex::build(&words, 900, 700);
    for r in [
        Rect { x: 0, y: 0, w: 900, h: 700, den_x: 1, den_y: 1 },
        Rect { x: 250, y: 250, w: 10, h: 300, den_x: 1, den_y: 1 },
        Rect { x: -50, y: -50, w: 60, h: 60, den_x: 1, den_y: 1 },
        Rect { x: 880, y: 690, w: 500, h: 500, den_x: 1, den_y: 1 },
        Rect { x: 95, y: 95, w: 20, h: 20, den_x: 1, den_y: 1 },
    ] {
        let mut got = idx.query_intersecting(&words, &r);
        got.sort_unstable();
        let want: Vec<usize> = (0..words.len())
            .filter(|&i| words[i].bbox.w > 0 && words[i].bbox.h > 0 && words[i].bbox.intersects(&r))
            .collect();
        assert_eq!(got, want, "{r:?}");
    }
}

#[test]
fn negative_or_empty_queries_return_nothing() {
    let words = vec![w("a", Rect { x: 10, y: 10, w: 10, h: 10, den_x: 1, den_y: 1 }, 0)];
    let mut idx = OcrWordIndex::build(&words, 100, 100);
    assert!(idx.query_intersecting(&words, &Rect { x: 30, y: 30, w: -25, h: 5, den_x: 1, den_y: 1 }).is_empty());
    assert!(idx.query_intersecting(&[], &Rect { x: 0, y: 0, w: 50, h: 50, den_x: 1, den_y: 1 }).is_empty());
}

#[test]
fn repeated_queries_keep_answering() {
    let words = vec![
        w("a", Rect { x: 10, y: 10, w: 10, h: 10, den_x: 1, den_y: 1 }, 0),
        w("b", Rect { x: 500, y: 500, w: 10, h: 10, den_x: 1, den_y: 1 }, 1),
    ];
    let mut idx = OcrWordIndex::build_with_cell_size(&words, 600, 600, 0);
    for _ in 0..1000 {
        assert_eq!(idx.query_intersecting(&words, &Rect { x: 0, y: 0, w: 20, h: 20, den_x: 1, den_y: 1 }), vec![0]);
        assert_eq!(idx.query_intersecting(&words, &Rect { x: 505, y: 505, w: 1, h: 1, den_x: 1, den_y: 1 }), vec![1]);
    }
}

#[test]
fn fractional_boxes_are_found_in_every_cell_they_cover() {
    // Cells of 2 pixels. Boxes in half and third pixels.
    let words = vec![
        w("a", Rect { x: 3, y: 3, w: 2, h: 2, den_x: 2, den_y: 2 }, 0), // 1.5 .. 2.5
        w("b", Rect { x: 11, y: 1, w: 1, h: 1, den_x: 3, den_y: 3 }, 1), // 3.67 .. 4
        w("c", Rect { x: 0, y: 0, w: 0, h: 1, den_x: 3, den_y: 3 }, 2), // no area
    ];
    let mut idx = OcrWordIndex::build_with_cell_size(&words, 10, 10, 2);
    let px = |x, y, w_, h| Rect { x, y, w: w_, h, den_x: 1, den_y: 1 };
    assert_eq!(idx.query_intersecting(&words, &px(2, 2, 1, 1)), vec![0]);
    assert_eq!(idx.query_intersecting(&words, &px(0, 0, 2, 2)), vec![0]);
    assert!(idx.query_intersecting(&words, &px(4, 0, 1, 1)).is_empty());
    let mut got = idx.query_intersecting(&words, &px(3, 0, 1, 1));
    got.sort();
    assert_eq!(got, vec![1]);
    // A selection in quarter pixels: 2.25 .. 2.5 still meets word a.
    let quarter = Rect { x: 9, y: 9, w: 1, h: 1, den_x: 4, den_y: 4 };
    assert_eq!(idx.query_intersecting(&words, &quarter), vec![0]);
}
