use quickview::cache::{ocr_cache_key, ocr_cache_path};
use quickview::ocr::tesseract::OcrOptions;

fn opts(lang: &str, dir: Option<&str>) -> OcrOptions {
    OcrOptions {
        lang: lang.to_owned(),
        tessdata_dir: dir.map(String::from),
    }
}

#[test]
fn key_is_hex_blake3_of_the_inputs() {
    let mut msg: Vec<u8> = Vec::new();
    msg.extend_from_slice(b"/img/a.png\0eng\0\0full\0");
    msg.extend_from_slice(&7u64.to_le_bytes());
    msg.extend_from_slice(&9u32.to_le_bytes());
    msg.extend_from_slice(&2u64.to_le_bytes());
    let want = blake3::hash(&msg).to_hex().to_string();
    assert_eq!(ocr_cache_key("/img/a.png", &opts("eng", None), None, 7, 9, 2), want);
}

#[test]
fn key_changes_with_every_input() {
    let base = ocr_cache_key("/a.png", &opts("eng", None), None, 1, 0, 2);
    assert_eq!(base.len(), 64);
    assert_eq!(base, ocr_cache_key("/a.png", &opts("eng", None), None, 1, 0, 2));
    assert_ne!(base, ocr_cache_key("/b.png", &opts("eng", None), None, 1, 0, 2));
    assert_ne!(base, ocr_cache_key("/a.png", &opts("deu", None), None, 1, 0, 2));
    assert_ne!(base, ocr_cache_key("/a.png", &opts("eng", Some("")), None, 1, 0, 2));
    assert_ne!(
        ocr_cache_key("/a.png", &opts("eng", Some("")), None, 1, 0, 2),
        ocr_cache_key("/a.png", &opts("eng", Some("/t")), None, 1, 0, 2)
    );
    assert_ne!(base, ocr_cache_key("/a.png", &opts("eng", None), Some((4000, 2000)), 1, 0, 2));
    assert_ne!(base, ocr_cache_key("/a.png", &opts("eng", None), None, 1_000_000, 0, 2));
    assert_ne!(base, ocr_cache_key("/a.png", &opts("eng", None), None, 1, 5, 2));
    assert_ne!(base, ocr_cache_key("/a.png", &opts("eng", None), None, 1, 0, 4));
}

#[test]
fn cache_path_is_under_ocr_dir() {
    let key = ocr_cache_key("/a.png", &opts("eng", None), Some((12, 3)), 1, 0, 2);
    let p = ocr_cache_path("/home/u/.cache/quickview", "/a.png", &opts("eng", None), Some((12, 3)), 1, 0, 2);
    assert_eq!(p, format!("/home/u/.cache/quickview/ocr/{key}.json"));
}

#[test]
fn target_is_written_as_width_x_height() {
    let mut msg: Vec<u8> = Vec::new();
    msg.extend_from_slice(b"f\0l\0\x01/t\0");
    msg.extend_from_slice(b"4000x2000\0");
    msg.extend_from_slice(&0u64.to_le_bytes());
    msg.extend_from_slice(&0u32.to_le_bytes());
    msg.extend_from_slice(&0u64.to_le_bytes());
    let want = blake3::hash(&msg).to_hex().to_string();
    assert_eq!(ocr_cache_key("f", &opts("l", Some("/t")), Some((4000, 2000)), 0, 0, 0), want);
}
