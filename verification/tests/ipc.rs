use quickview::ipc::{from_argv, to_argv, ArgvError, LaunchOptions, Mode};

fn opts(mode: Mode, lang: &str, file: &str) -> LaunchOptions {
    LaunchOptions {
        mode,
        file: file.to_owned(),
        ocr_lang: lang.to_owned(),
    }
}

fn os_argv(parts: &[&str]) -> Vec<String> {
    parts.iter().map(|s| s.to_string()).collect()
}

fn round_trip(original: &LaunchOptions) -> LaunchOptions {
    let argv = to_argv(original);
    from_argv(&argv).unwrap()
}

#[test]
fn round_trips_both_modes() {
    for mode in [Mode::QuickPreview, Mode::FullViewer] {
        let original = opts(mode, "eng", "/tmp/a.png");
        assert_eq!(round_trip(&original), original);
    }
}

#[test]
fn round_trips_lang_and_awkward_paths() {
    for file in [
        "/tmp/with spaces/shot 1.png",
        "/tmp/-starts-with-dash.png",
        "/tmp/has=equals.png",
    ] {
        let original = opts(Mode::QuickPreview, "deu", file);
        assert_eq!(round_trip(&original), original);
    }
}

#[test]
fn rejects_missing_pieces() {
    assert!(from_argv(&os_argv(&["quickview"])).is_err());
    assert!(from_argv(&os_argv(&["quickview", "--mode=quick-preview"])).is_err());
    assert!(from_argv(&os_argv(&["quickview", "--mode=quick-preview", "--file=/a"])).is_err());
    assert!(from_argv(&os_argv(&["quickview", "--lang=eng", "--file=/a"])).is_err());
    assert!(from_argv(&os_argv(&["quickview", "--mode=quick-preview", "--lang=eng"])).is_err());
}

#[test]
fn rejects_garbage() {
    assert!(from_argv(&os_argv(&["quickview", "--bogus=x"])).is_err());
    assert!(from_argv(&os_argv(&["quickview", "--mode=sideways", "--lang=eng", "--file=/a"])).is_err());
    // A stray positional argument (e.g. a path that lost its --file=
    // framing) must not be silently accepted.
    assert!(from_argv(&os_argv(&["quickview", "--mode=full-viewer", "--lang=eng", "/a"])).is_err());
}

#[test]
fn canonical_argv_shape() {
    let argv = to_argv(&opts(Mode::FullViewer, "eng+deu", "/x/y.png"));
    assert_eq!(argv, ["quickview", "--mode=full-viewer", "--lang=eng+deu", "--file=/x/y.png"]);
}

#[test]
fn each_error_names_its_cause() {
    assert_eq!(from_argv(&os_argv(&["quickview"])), Err(ArgvError::MissingMode));
    assert_eq!(from_argv(&os_argv(&[])), Err(ArgvError::MissingMode));
    assert_eq!(
        from_argv(&os_argv(&["quickview", "--mode=quick-preview"])),
        Err(ArgvError::MissingLang)
    );
    assert_eq!(
        from_argv(&os_argv(&["quickview", "--mode=quick-preview", "--lang=eng"])),
        Err(ArgvError::MissingFile)
    );
    assert_eq!(
        from_argv(&os_argv(&["quickview", "--mode=sideways"])),
        Err(ArgvError::UnknownMode("sideways".into()))
    );
    assert_eq!(
        from_argv(&os_argv(&["quickview", "/a", "--mode=sideways"])),
        Err(ArgvError::UnexpectedArgument("/a".into()))
    );
    // A repeated key keeps the last value.
    let o = from_argv(&os_argv(&[
        "quickview",
        "--file=/a",
        "--mode=quick-preview",
        "--lang=eng",
        "--file=/b",
    ]))
    .unwrap();
    assert_eq!(o.file, "/b");
}
