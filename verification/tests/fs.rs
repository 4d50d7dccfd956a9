use quickview::fs::{images_in_listing, is_image_path, join_path, path_file_name, same_path, FsError};

#[test]
fn image_extensions_are_case_insensitive() {
    assert!(is_image_path("/a/b/photo.PNG"));
    assert!(is_image_path("shot.jpeg"));
    assert!(is_image_path("x.tar.gif"));
    assert!(is_image_path("dir/pic.SvG"));
    assert!(!is_image_path("notes.txt"));
    assert!(!is_image_path("png"));
    assert!(!is_image_path(".png"));
    assert!(!is_image_path("a.png/.."));
    assert!(is_image_path("a.png/."));
    assert!(is_image_path("a.png/"));
    assert!(!is_image_path(""));
    assert!(!is_image_path("photo."));
}

#[test]
fn file_names_follow_path_components() {
    assert_eq!(path_file_name("/usr/bin/"), Some("bin".to_string()));
    assert_eq!(path_file_name("tmp/foo.txt"), Some("foo.txt".to_string()));
    assert_eq!(path_file_name("foo.txt/."), Some("foo.txt".to_string()));
    assert_eq!(path_file_name("foo.txt/.//"), Some("foo.txt".to_string()));
    assert_eq!(path_file_name("foo.txt/.."), None);
    assert_eq!(path_file_name("/"), None);
    assert_eq!(path_file_name("."), None);
    assert_eq!(path_file_name(""), None);
    assert_eq!(path_file_name("..a"), Some("..a".to_string()));
}

#[test]
fn join_adds_one_separator() {
    assert_eq!(join_path("/cache", "ocr"), "/cache/ocr");
    assert_eq!(join_path("/cache/", "ocr"), "/cache/ocr");
    assert_eq!(join_path("", "ocr"), "ocr");
    assert_eq!(join_path("/cache", "/abs"), "/abs");
}

#[test]
fn listing_keeps_sorted_image_files() {
    let entries = vec![
        ("/d/b.png".to_string(), true),
        ("/d/a.JPG".to_string(), true),
        ("/d/notes.txt".to_string(), true),
        ("/d/dir.png".to_string(), false),
        ("/d/B.png".to_string(), true),
        ("/d/ä.webp".to_string(), true),
    ];
    let out = images_in_listing(Ok(entries)).unwrap();
    assert_eq!(out, ["/d/B.png", "/d/a.JPG", "/d/b.png", "/d/ä.webp"]);
}

#[test]
fn listing_error_is_reported() {
    let err = std::io::Error::new(std::io::ErrorKind::NotFound, "gone");
    match images_in_listing(Err(err)) {
        Err(FsError::Io(e)) => assert_eq!(e.kind(), std::io::ErrorKind::NotFound),
        Ok(v) => panic!("unexpected {v:?}"),
    }
}

#[test]
fn paths_compare_by_components_as_std_does() {
    let samples = [
        "", "/", "//", "/a/b.png", "/a//b.png", "/a/./b.png", "/a/b.png/", "a/b", "./a/b",
        "a/./b", ".", "./", "..", "../a", "/a/../b", "/./a", "a", "a/", ".a", "./.a", "/a/b.pn",
    ];
    for a in samples {
        for b in samples {
            assert_eq!(
                same_path(a, b),
                std::path::Path::new(a) == std::path::Path::new(b),
                "{a:?} vs {b:?}"
            );
        }
    }
}
