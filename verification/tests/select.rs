use quickview::geometry::Rect;
use quickview::ocr::models::OcrWord;
use quickview::ocr::select::{select_word_indices, select_words, selected_text, selected_text_at};

fn w(text: &str, x: i64, order: usize) -> OcrWord {
    OcrWord {
        text: text.to_string(),
        confidence: "90".to_string(),
        bbox: Rect { x, y: 0, w: 10, h: 10, den_x: 1, den_y: 1 },
        order,
    }
}

#[test]
fn selection_keeps_intersecting_words_in_list_order() {
    let words = vec![w("a", 0, 0), w("b", 20, 1), w("c", 40, 2), w("d", 60, 3)];
    let sel = select_words(&words, Rect { x: 15, y: 5, w: 30, h: 1, den_x: 1, den_y: 1 });
    let texts: Vec<&str> = sel.iter().map(|w| w.text.as_str()).collect();
    assert_eq!(texts, ["b", "c"]);
    assert_eq!(select_word_indices(&words, Rect { x: 15, y: 5, w: 30, h: 1, den_x: 1, den_y: 1 }), vec![1, 2]);
    // Touching edges do not count.
    assert!(select_words(&words, Rect { x: 10, y: 0, w: 10, h: 10, den_x: 1, den_y: 1 }).is_empty());
}

#[test]
fn selected_text_follows_ocr_order() {
    let words = vec![w("world", 0, 5), w("hello", 20, 2), w("!", 40, 9)];
    let refs: Vec<&OcrWord> = vec![&words[2], &words[0], &words[1]];
    assert_eq!(selected_text(refs), "hello world !");
    assert_eq!(selected_text(Vec::new()), "");
    assert_eq!(selected_text(vec![&words[0]]), "world");
}

#[test]
fn equal_orders_keep_selection_order() {
    let words = vec![w("x", 0, 1), w("y", 20, 1), w("z", 40, 0)];
    assert_eq!(selected_text(vec![&words[1], &words[0], &words[2]]), "z y x");
}

#[test]
fn text_at_indices_skips_stale_indices() {
    let words = vec![w("b", 0, 1), w("a", 20, 0)];
    assert_eq!(selected_text_at(&words, &[0, 7, 1]), "a b");
    assert_eq!(selected_text_at(&words, &[]), "");
}

#[test]
fn listing_order_does_not_change_the_text() {
    let words = vec![w("the", 0, 0), w("quick", 20, 1), w("fox", 40, 2)];
    let forward = selected_text(vec![&words[0], &words[1], &words[2]]);
    let backward = selected_text(vec![&words[2], &words[1], &words[0]]);
    let shuffled = selected_text(vec![&words[1], &words[2], &words[0]]);
    assert_eq!(forward, "the quick fox");
    assert_eq!(backward, forward);
    assert_eq!(shuffled, forward);
}
