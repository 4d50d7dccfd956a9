use quickview::ocr::tsv::{parse_tesseract_tsv, TsvError};

#[test]
fn parses_word_level_entries() {
    let sample = "level\tpage_num\tblock_num\tpar_num\tline_num\tword_num\tleft\ttop\twidth\theight\tconf\ttext\n\
1\t1\t0\t0\t0\t0\t0\t0\t640\t480\t-1\t\n\
5\t1\t1\t1\t1\t1\t10\t20\t30\t40\t95.0\tHello\n\
5\t1\t1\t1\t1\t2\t50\t20\t30\t40\t90.0\tworld\n";

    let r = parse_tesseract_tsv(sample).unwrap();
    assert_eq!(r.words.len(), 2);
    assert_eq!(r.words[0].text, "Hello");
    assert_eq!(r.words[1].text, "world");
    assert_eq!(r.words[0].bbox.x, 10);
}

#[test]
fn keeps_row_positions_and_fields() {
    let sample = "level\tleft\ttop\twidth\theight\tconf\ttext\n\
5\t1\t2\t3\t4\t96.5\t  spaced  \n\
5\t1\t2\t3\t4\t50\t   \n\
4\t1\t2\t3\t4\t50\tline\n\
5\tx\t-7\t3\n\
5\t9\t8\t7\t6\t12\tlast\n";
    let r = parse_tesseract_tsv(sample).unwrap();
    assert_eq!(r.words.len(), 2);
    assert_eq!(r.words[0].text, "spaced");
    assert_eq!(r.words[0].order, 0);
    assert_eq!(r.words[0].confidence, "96.5");
    assert_eq!((r.words[0].bbox.x, r.words[0].bbox.y, r.words[0].bbox.w, r.words[0].bbox.h), (1, 2, 3, 4));
    assert_eq!(r.words[1].text, "last");
    assert_eq!(r.words[1].order, 4);
    assert_eq!(r.words[1].bbox.h, 6);
}

#[test]
fn short_rows_use_defaults() {
    let sample = "text\tconf\theight\twidth\ttop\tleft\tlevel\n\
word\n\
word\t\t\t\t\t\t5\n";
    let r = parse_tesseract_tsv(sample).unwrap();
    assert_eq!(r.words.len(), 1);
    assert_eq!(r.words[0].order, 1);
    assert_eq!(r.words[0].bbox.x, 0);
    assert_eq!(r.words[0].confidence, "-1");
}

#[test]
fn missing_column_is_reported_by_name() {
    match parse_tesseract_tsv("level\tleft\ttop\twidth\theight\ttext\n5\t1\t1\t1\t1\thi\n") {
        Err(TsvError::MissingColumn(name)) => assert_eq!(name, "conf"),
        other => panic!("unexpected {other:?}"),
    }
    match parse_tesseract_tsv("") {
        Err(TsvError::MissingColumn(name)) => assert_eq!(name, "level"),
        other => panic!("unexpected {other:?}"),
    }
}

#[test]
fn unbalanced_rows_are_allowed() {
    let sample = "level\tleft\ttop\twidth\theight\tconf\ttext\n5\t1\t1\t1\t1\t1\ta\textra\tmore\n";
    let r = parse_tesseract_tsv(sample).unwrap();
    assert_eq!(r.words[0].text, "a");
}

#[test]
fn confidence_that_is_not_a_number_reads_as_minus_one() {
    let sample = "level\tleft\ttop\twidth\theight\tconf\ttext\n\
5\t1\t1\t1\t1\tabc\ta\n\
5\t1\t1\t1\t1\t95.0\tb\n\
5\t1\t1\t1\t1\t-1\tc\n\
5\t1\t1\t1\t1\t1e3\td\n\
5\t1\t1\t1\t1\t.5\te\n\
5\t1\t1\t1\t1\t1.2.3\tf\n\
5\t1\t1\t1\t1\tInf\tg\n\
5\t1\t1\t1\t1\t1e\th\n";
    let r = parse_tesseract_tsv(sample).unwrap();
    let confs: Vec<&str> = r.words.iter().map(|w| w.confidence.as_str()).collect();
    assert_eq!(confs, ["-1", "95.0", "-1", "1e3", ".5", "-1", "Inf", "-1"]);
    for w in &r.words {
        assert!(w.confidence.parse::<f32>().is_ok());
    }
}

#[test]
fn decimal_box_fields_are_kept_exactly() {
    let sample = "level\tleft\ttop\twidth\theight\tconf\ttext\n\
5\t10.5\t1e2\t3.25\t2\t90\ta\n\
5\t-0.5\t+7\t.5E1\t0e999\t90\tb\n\
5\t1e-12\t1e30\tinf\tnan\t90\tc\n";
    let r = parse_tesseract_tsv(sample).unwrap();
    let px = |n: i64, d: u32| n as f64 / d as f64;
    let a = r.words[0].bbox;
    assert_eq!((a.x, a.w, a.den_x), (1050, 325, 100));
    assert_eq!((a.y, a.h, a.den_y), (100, 2, 1));
    let b = r.words[1].bbox;
    assert_eq!((px(b.x, b.den_x), px(b.w, b.den_x)), (-0.5, 5.0));
    assert_eq!((b.y, b.h, b.den_y), (7, 0, 1));
    // A unit finer than 10^-9, a value beyond i64, or inf/nan: the axis reads as 0.
    let c = r.words[2].bbox;
    assert_eq!((c.x, c.w, c.den_x), (0, 0, 1));
    assert_eq!((c.y, c.h, c.den_y), (0, 0, 1));
}
