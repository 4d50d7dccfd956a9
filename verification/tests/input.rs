use quickview::input::{
    drag_start, focus_dismiss, key_action, scroll_zoom, DragStart, KeyAction, ScrollZoom,
    KEY_0, KEY_C, KEY_EQUAL, KEY_ESCAPE, KEY_F10, KEY_HOME, KEY_KP_ADD, KEY_KP_SUBTRACT,
    KEY_LEFT, KEY_MENU, KEY_MINUS, KEY_PLUS, KEY_RIGHT, KEY_SPACE,
};
use quickview::ipc::Mode;

#[test]
fn keysyms_are_gdk_values() {
    assert_eq!(
        [KEY_C, KEY_MENU, KEY_F10, KEY_PLUS, KEY_EQUAL, KEY_KP_ADD, KEY_MINUS, KEY_KP_SUBTRACT],
        [0x63, 0xff67, 0xffc7, 0x2b, 0x3d, 0xffab, 0x2d, 0xffad]
    );
    assert_eq!(
        [KEY_0, KEY_HOME, KEY_LEFT, KEY_RIGHT, KEY_ESCAPE, KEY_SPACE],
        [0x30, 0xff50, 0xff51, 0xff53, 0xff1b, 0x20]
    );
}

#[test]
fn shortcuts_shared_by_both_windows() {
    for mode in [Mode::QuickPreview, Mode::FullViewer] {
        assert_eq!(key_action(KEY_C, true, false, mode), Some(KeyAction::CopySelection));
        assert_eq!(key_action(KEY_C, false, false, mode), None);
        assert_eq!(key_action(KEY_MENU, false, false, mode), Some(KeyAction::ContextMenu));
        assert_eq!(key_action(KEY_F10, false, true, mode), Some(KeyAction::ContextMenu));
        assert_eq!(key_action(KEY_F10, false, false, mode), None);
        for k in [KEY_PLUS, KEY_EQUAL, KEY_KP_ADD] {
            assert_eq!(key_action(k, false, false, mode), Some(KeyAction::ZoomIn));
        }
        for k in [KEY_MINUS, KEY_KP_SUBTRACT] {
            assert_eq!(key_action(k, false, false, mode), Some(KeyAction::ZoomOut));
        }
        for k in [KEY_0, KEY_HOME] {
            assert_eq!(key_action(k, false, false, mode), Some(KeyAction::ResetView));
        }
    }
}

#[test]
fn window_specific_shortcuts() {
    assert_eq!(key_action(KEY_ESCAPE, false, false, Mode::QuickPreview), Some(KeyAction::Dismiss));
    assert_eq!(key_action(KEY_SPACE, false, false, Mode::QuickPreview), Some(KeyAction::Dismiss));
    assert_eq!(key_action(KEY_LEFT, false, false, Mode::QuickPreview), None);
    assert_eq!(key_action(KEY_ESCAPE, false, false, Mode::FullViewer), None);
    assert_eq!(key_action(KEY_LEFT, false, false, Mode::FullViewer), Some(KeyAction::PrevImage));
    assert_eq!(key_action(KEY_RIGHT, true, false, Mode::FullViewer), Some(KeyAction::NextImage));
}

#[test]
fn focus_loss_closes_only_after_focus() {
    assert_eq!(focus_dismiss(false, false), (false, false));
    assert_eq!(focus_dismiss(false, true), (true, false));
    assert_eq!(focus_dismiss(true, true), (true, false));
    assert_eq!(focus_dismiss(true, false), (true, true));
}

#[test]
fn drags_pan_select_or_do_nothing() {
    assert_eq!(drag_start(2, false, true), DragStart::Pan);
    assert_eq!(drag_start(1, true, true), DragStart::Pan);
    assert_eq!(drag_start(1, true, false), DragStart::Select);
    assert_eq!(drag_start(1, false, true), DragStart::Select);
    assert_eq!(drag_start(2, false, false), DragStart::Idle);
    assert_eq!(drag_start(3, true, true), DragStart::Idle);
}

#[test]
fn ctrl_scroll_zooms() {
    assert_eq!(scroll_zoom(false, -1), ScrollZoom::Pass);
    assert_eq!(scroll_zoom(true, -1), ScrollZoom::In);
    assert_eq!(scroll_zoom(true, 1), ScrollZoom::Out);
    assert_eq!(scroll_zoom(true, 0), ScrollZoom::Consume);
}
