//! What keys, pointer drags, scrolling and focus changes mean to the viewer,
//! decided on plain values (GDK keysyms and button numbers).
use vstd::prelude::*;

use crate::ipc::Mode;

verus! {

/// GDK keysym of `c`.
pub const KEY_C: u32 = 0x63;
/// GDK keysym of the Menu key.
pub const KEY_MENU: u32 = 0xff67;
/// GDK keysym of F10.
pub const KEY_F10: u32 = 0xffc7;
/// GDK keysym of `+`.
pub const KEY_PLUS: u32 = 0x2b;
/// GDK keysym of `=`.
pub const KEY_EQUAL: u32 = 0x3d;
/// GDK keysym of keypad `+`.
pub const KEY_KP_ADD: u32 = 0xffab;
/// GDK keysym of `-`.
pub const KEY_MINUS: u32 = 0x2d;
/// GDK keysym of keypad `-`.
pub const KEY_KP_SUBTRACT: u32 = 0xffad;
/// GDK keysym of `0`.
pub const KEY_0: u32 = 0x30;
/// GDK keysym of Home.
pub const KEY_HOME: u32 = 0xff50;
/// GDK keysym of the Left arrow.
pub const KEY_LEFT: u32 = 0xff51;
/// GDK keysym of the Right arrow.
pub const KEY_RIGHT: u32 = 0xff53;
/// GDK keysym of Escape.
pub const KEY_ESCAPE: u32 = 0xff1b;
/// GDK keysym of the space bar.
pub const KEY_SPACE: u32 = 0x20;

/// What a key press asks of a viewer window.
#[derive(Debug, Clone, Copy, PartialEq, Eq, Structural)]
pub enum KeyAction {
    /// Copy the selected text (Ctrl+C).
    CopySelection,
    /// Open the context menu (Menu, Shift+F10).
    ContextMenu,
    /// Zoom in (`+`, `=`, keypad `+`).
    ZoomIn,
    /// Zoom out (`-`, keypad `-`).
    ZoomOut,
    /// Back to fit-to-window (`0`, Home).
    ResetView,
    /// Previous image of the directory (Left, full viewer).
    PrevImage,
    /// Next image of the directory (Right, full viewer).
    NextImage,
    /// Close the quick preview (Escape, Space).
    Dismiss,
}

/// The action of a key press in a window of the given kind, the shortcuts
/// tested in this order; `None` lets the key through.
pub open spec fn key_action_spec(keyval: u32, ctrl: bool, shift: bool, window: Mode) -> Option<
    KeyAction,
> {
    if ctrl && keyval == KEY_C {
        Some(KeyAction::CopySelection)
    } else if keyval == KEY_MENU || (shift && keyval == KEY_F10) {
        Some(KeyAction::ContextMenu)
    } else if keyval == KEY_PLUS || keyval == KEY_EQUAL || keyval == KEY_KP_ADD {
        Some(KeyAction::ZoomIn)
    } else if keyval == KEY_MINUS || keyval == KEY_KP_SUBTRACT {
        Some(KeyAction::ZoomOut)
    } else if keyval == KEY_0 || keyval == KEY_HOME {
        Some(KeyAction::ResetView)
    } else {
        match window {
            Mode::QuickPreview => if keyval == KEY_ESCAPE || keyval == KEY_SPACE {
                Some(KeyAction::Dismiss)
            } else {
                None
            },
            Mode::FullViewer => if keyval == KEY_LEFT {
                Some(KeyAction::PrevImage)
            } else if keyval == KEY_RIGHT {
                Some(KeyAction::NextImage)
            } else {
                None
            },
        }
    }
}

/// The action of a key press (`keyval` a GDK keysym) with the Ctrl and Shift
/// modifiers as given, in a quick preview or full viewer window.
pub fn key_action(keyval: u32, ctrl: bool, shift: bool, window: Mode) -> (a: Option<KeyAction>)
    ensures
        a == key_action_spec(keyval, ctrl, shift, window),
{
    if ctrl && keyval == KEY_C {
        Some(KeyAction::CopySelection)
    } else if keyval == KEY_MENU || (shift && keyval == KEY_F10) {
        Some(KeyAction::ContextMenu)
    } else if keyval == KEY_PLUS || keyval == KEY_EQUAL || keyval == KEY_KP_ADD {
        Some(KeyAction::ZoomIn)
    } else if keyval == KEY_MINUS || keyval == KEY_KP_SUBTRACT {
        Some(KeyAction::ZoomOut)
    } else if keyval == KEY_0 || keyval == KEY_HOME {
        Some(KeyAction::ResetView)
    } else {
        match window {
            Mode::QuickPreview => if keyval == KEY_ESCAPE || keyval == KEY_SPACE {
                Some(KeyAction::Dismiss)
            } else {
                None
            },
            Mode::FullViewer => if keyval == KEY_LEFT {
                Some(KeyAction::PrevImage)
            } else if keyval == KEY_RIGHT {
                Some(KeyAction::NextImage)
            } else {
                None
            },
        }
    }
}

/// The focus-loss latch of a preview window without layer shell: given
/// whether the window has been active before and whether it is active now,
/// the new latch and whether to close. Only a change from active to inactive
/// closes, so a window mapped unfocused stays open.
pub fn focus_dismiss(was_active: bool, is_active: bool) -> (r: (bool, bool))
    ensures
        r.0 == (was_active || is_active),
        r.1 == (was_active && !is_active),
{
    if is_active {
        (true, false)
    } else {
        (was_active, was_active)
    }
}

/// Pointer button numbers as GDK reports them.
pub const BUTTON_PRIMARY: u32 = 1;
pub const BUTTON_MIDDLE: u32 = 2;

/// What a drag on the image starts.
#[derive(Debug, Clone, Copy, PartialEq, Eq, Structural)]
pub enum DragStart {
    /// Move the view.
    Pan,
    /// Select words under the dragged rectangle.
    Select,
    /// Nothing.
    Idle,
}

/// A drag with the middle button, or the primary button with Ctrl, pans when
/// the view can pan; otherwise a primary-button drag selects, and any other
/// drag does nothing.
pub fn drag_start(button: u32, ctrl: bool, can_pan: bool) -> (d: DragStart)
    ensures
        d == (if (button == BUTTON_MIDDLE || (button == BUTTON_PRIMARY && ctrl)) && can_pan {
            DragStart::Pan
        } else if button == BUTTON_PRIMARY {
            DragStart::Select
        } else {
            DragStart::Idle
        }),
{
    let pan_requested = button == BUTTON_MIDDLE || (button == BUTTON_PRIMARY && ctrl);
    if pan_requested && can_pan {
        DragStart::Pan
    } else if button == BUTTON_PRIMARY {
        DragStart::Select
    } else {
        DragStart::Idle
    }
}

/// What a vertical scroll step over the image does.
#[derive(Debug, Clone, Copy, PartialEq, Eq, Structural)]
pub enum ScrollZoom {
    /// Not a zoom gesture: let the scroll through.
    Pass,
    /// Zoom in one step.
    In,
    /// Zoom out one step.
    Out,
    /// A zoom gesture without direction: swallow it.
    Consume,
}

/// Ctrl+scroll zooms: up (`dy_sign < 0`) in, down out; without Ctrl the
/// scroll passes through.
pub fn scroll_zoom(ctrl: bool, dy_sign: i8) -> (z: ScrollZoom)
    ensures
        z == (if !ctrl {
            ScrollZoom::Pass
        } else if dy_sign < 0 {
            ScrollZoom::In
        } else if dy_sign > 0 {
            ScrollZoom::Out
        } else {
            ScrollZoom::Consume
        }),
{
    if !ctrl {
        ScrollZoom::Pass
    } else if dy_sign < 0 {
        ScrollZoom::In
    } else if dy_sign > 0 {
        ScrollZoom::Out
    } else {
        ScrollZoom::Consume
    }
}

/// The zoom keys zoom whatever modifiers are held, in both windows: `+`,
/// `=` and keypad `+` zoom in; `-` and keypad `-` zoom out.
pub proof fn zoom_keys_ignore_modifiers(ctrl: bool, shift: bool, window: Mode)
    ensures
        key_action_spec(0x2b, ctrl, shift, window) == Some(KeyAction::ZoomIn),
        key_action_spec(0x3d, ctrl, shift, window) == Some(KeyAction::ZoomIn),
        key_action_spec(0xffab, ctrl, shift, window) == Some(KeyAction::ZoomIn),
        key_action_spec(0x2d, ctrl, shift, window) == Some(KeyAction::ZoomOut),
        key_action_spec(0xffad, ctrl, shift, window) == Some(KeyAction::ZoomOut),
{
}

/// The shortcuts both windows share: Ctrl+C copies (plain `c` does nothing),
/// Menu and Shift+F10 open the context menu, `0` and Home reset the view.
pub proof fn shared_shortcuts(ctrl: bool, shift: bool, window: Mode)
    ensures
        key_action_spec(0x63, true, shift, window) == Some(KeyAction::CopySelection),
        key_action_spec(0x63, false, shift, window) == None::<KeyAction>,
        key_action_spec(0xff67, ctrl, shift, window) == Some(KeyAction::ContextMenu),
        key_action_spec(0xffc7, ctrl, true, window) == Some(KeyAction::ContextMenu),
        key_action_spec(0x30, ctrl, shift, window) == Some(KeyAction::ResetView),
        key_action_spec(0xff50, ctrl, shift, window) == Some(KeyAction::ResetView),
{
}

/// Escape and Space dismiss the quick preview and nothing else; Left and
/// Right move through the directory in the full viewer and nothing else.
pub proof fn window_shortcuts(ctrl: bool, shift: bool)
    ensures
        key_action_spec(0xff1b, ctrl, shift, Mode::QuickPreview) == Some(KeyAction::Dismiss),
        key_action_spec(0x20, ctrl, shift, Mode::QuickPreview) == Some(KeyAction::Dismiss),
        key_action_spec(0xff1b, ctrl, shift, Mode::FullViewer) == None::<KeyAction>,
        key_action_spec(0x20, ctrl, shift, Mode::FullViewer) == None::<KeyAction>,
        key_action_spec(0xff51, ctrl, shift, Mode::FullViewer) == Some(KeyAction::PrevImage),
        key_action_spec(0xff53, ctrl, shift, Mode::FullViewer) == Some(KeyAction::NextImage),
        key_action_spec(0xff51, ctrl, shift, Mode::QuickPreview) == None::<KeyAction>,
        key_action_spec(0xff53, ctrl, shift, Mode::QuickPreview) == None::<KeyAction>,
{
}

/// Any other key is passed through.
pub proof fn other_keys_pass(keyval: u32, ctrl: bool, shift: bool, window: Mode)
    requires
        keyval != 0x63,
        keyval != 0xff67,
        keyval != 0xffc7,
        keyval != 0x2b,
        keyval != 0x3d,
        keyval != 0xffab,
        keyval != 0x2d,
        keyval != 0xffad,
        keyval != 0x30,
        keyval != 0xff50,
        keyval != 0xff1b,
        keyval != 0x20,
        keyval != 0xff51,
        keyval != 0xff53,
    ensures
        key_action_spec(keyval, ctrl, shift, window) == None::<KeyAction>,
{
}

} // verus!
