use quickview::ocr::tesseract::{tesseract_args, OcrOptions};

fn opts(lang: &str, tessdata_dir: Option<&str>) -> OcrOptions {
    OcrOptions {
        lang: lang.to_owned(),
        tessdata_dir: tessdata_dir.map(String::from),
    }
}

#[test]
fn args_baseline() {
    let args = tesseract_args("/tmp/a.png", &opts("eng", None));
    assert_eq!(args, ["/tmp/a.png", "-", "-l", "eng", "tsv", "quiet"]);
}

#[test]
fn args_with_tessdata_dir_precede_config_names() {
    let args = tesseract_args("/tmp/a.png", &opts("deu", Some("/opt/tessdata_fast")));
    assert_eq!(
        args,
        [
            "/tmp/a.png",
            "-",
            "-l",
            "deu",
            "--tessdata-dir",
            "/opt/tessdata_fast",
            "tsv",
            "quiet"
        ]
    );
}
