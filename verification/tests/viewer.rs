use quickview::ipc::Mode;
use quickview::viewer::{
    backend_for, dispatch_action, display_name, format_subtitle, rgba_layout, stdin_path,
    wants_stdin, Backend, DirNavigator, DispatchAction, FileInfo, OcrJobs, RgbaLayoutError,
};

fn info(width: i32, height: i32, size_bytes: Option<u64>, load_failed: bool) -> FileInfo {
    FileInfo {
        name: "test.png".to_string(),
        width,
        height,
        size_bytes,
        load_failed,
    }
}

#[test]
fn subtitle_shows_dimensions_and_size() {
    let subtitle = format_subtitle(&info(1920, 1080, Some(2_400_000), false), "2.4 MB");
    assert_eq!(subtitle, "1920×1080 · 2.4 MB");
}

#[test]
fn subtitle_omits_size_when_metadata_unavailable() {
    assert_eq!(format_subtitle(&info(800, 600, None, false), ""), "800×600");
}

#[test]
fn subtitle_handles_zero_bytes() {
    let subtitle = format_subtitle(&info(1, 1, Some(0), false), "0 bytes");
    assert_eq!(subtitle, "1×1 · 0 bytes");
}

#[test]
fn subtitle_handles_large_files() {
    let subtitle = format_subtitle(&info(12000, 8000, Some(3_500_000_000), false), "3.5 GB");
    assert_eq!(subtitle, "12000×8000 · 3.5 GB");
}

#[test]
fn subtitle_reports_load_failure() {
    assert_eq!(format_subtitle(&info(0, 0, Some(123), true), "123 bytes"), "Could not load image");
}

#[test]
fn display_name_prefers_file_name() {
    assert_eq!(display_name("/pics/cat.png"), "cat.png");
    assert_eq!(display_name("/"), "/");
}

fn paths(names: &[&str]) -> Vec<String> {
    names.iter().map(|s| s.to_string()).collect()
}

#[test]
fn navigation_clamps_at_both_ends() {
    let mut nav = DirNavigator::new("/d/b.png", paths(&["/d/a.png", "/d/b.png", "/d/c.png"]));
    assert_eq!(nav.current().as_deref(), Some("/d/b.png"));
    assert_eq!(nav.next_image().as_deref(), Some("/d/c.png"));
    // At the end, next reloads the last image.
    assert_eq!(nav.next_image().as_deref(), Some("/d/c.png"));
    assert_eq!(nav.prev_image().as_deref(), Some("/d/b.png"));
    assert_eq!(nav.prev_image().as_deref(), Some("/d/a.png"));
    // At the start, prev does nothing.
    assert_eq!(nav.prev_image(), None);
    assert_eq!(nav.current().as_deref(), Some("/d/a.png"));
}

#[test]
fn navigation_of_unknown_or_empty_lists() {
    let mut nav = DirNavigator::new("/x.png", paths(&["/d/a.png", "/d/b.png"]));
    assert_eq!(nav.current().as_deref(), Some("/d/a.png"));
    let mut empty = DirNavigator::new("/x.png", Vec::new());
    assert_eq!(empty.next_image(), None);
    assert_eq!(empty.prev_image(), None);
    assert_eq!(empty.current(), None);
    assert_eq!(nav.next_image().as_deref(), Some("/d/b.png"));
}

#[test]
fn late_ocr_results_are_ignored() {
    let mut jobs = OcrJobs::new();
    let first = jobs.start();
    assert!(jobs.is_current(first));
    let second = jobs.start();
    assert!(!jobs.is_current(first));
    assert!(jobs.is_current(second));
}

#[test]
fn quick_preview_toggles_on_same_file() {
    assert_eq!(
        dispatch_action(Mode::QuickPreview, Some("/a.png"), "/a.png"),
        DispatchAction::ClosePreview
    );
    assert_eq!(
        dispatch_action(Mode::QuickPreview, Some("/a.png"), "/b.png"),
        DispatchAction::ShowInPreview
    );
    assert_eq!(dispatch_action(Mode::QuickPreview, None, "/a.png"), DispatchAction::OpenPreview);
    assert_eq!(
        dispatch_action(Mode::FullViewer, Some("/a.png"), "/a.png"),
        DispatchAction::OpenFullViewer { close_preview: true }
    );
    assert_eq!(
        dispatch_action(Mode::FullViewer, None, "/a.png"),
        DispatchAction::OpenFullViewer { close_preview: false }
    );
    assert_eq!(
        dispatch_action(Mode::QuickPreview, Some("/d//a.png"), "/d/./a.png"),
        DispatchAction::ClosePreview
    );
}

#[test]
fn backend_falls_back_only_without_loaders() {
    assert_eq!(backend_for(0), Backend::Gdk);
    assert_eq!(backend_for(12), Backend::Glycin);
}

#[test]
fn stdin_input() {
    assert!(wants_stdin(None));
    assert!(wants_stdin(Some("-")));
    assert!(!wants_stdin(Some("a.png")));
    assert_eq!(stdin_path("  /tmp/a.png \r\nsecond\n").as_deref(), Some("/tmp/a.png"));
    assert_eq!(stdin_path("/tmp/b.png"), Some("/tmp/b.png".to_string()));
    assert_eq!(stdin_path(""), None);
    assert_eq!(stdin_path("   \nlater.png"), None);
}

#[test]
fn rgba_layout_checks_sizes() {
    assert_eq!(rgba_layout(10, 5), Ok((40, 200)));
    assert_eq!(rgba_layout(-1, 5), Err(RgbaLayoutError::WidthOverflow));
    assert_eq!(rgba_layout(10, -5), Err(RgbaLayoutError::SizeOverflow));
    assert_eq!(rgba_layout(i32::MAX, 1), Err(RgbaLayoutError::StrideTooLarge));
}

#[test]
fn navigation_finds_the_file_by_path_components() {
    let nav = DirNavigator::new("/d//b.png", paths(&["/d/a.png", "/d/b.png", "/d/c.png"]));
    assert_eq!(nav.current().as_deref(), Some("/d/b.png"));
    let nav = DirNavigator::new("/d/./c.png/", paths(&["/d/a.png", "/d/b.png", "/d/c.png"]));
    assert_eq!(nav.current().as_deref(), Some("/d/c.png"));
}
