//! Events that reach the application.
use vstd::prelude::*;

use crate::input::KeyEvent;

verus! {

/// Something that happened: a key press, a mouse action, output or exit of
/// a pane's program, a terminal resize, or a notification from outside.
#[derive(Debug)]
pub enum AppEvent {
    KeyInput(KeyEvent),
    MouseClick { col: u16, row: u16 },
    MouseDrag { col: u16, row: u16 },
    MouseUp { col: u16, row: u16 },
    PtyOutput { pane_id: u32, data: Vec<u8> },
    PtyExit { pane_id: u32 },
    Resize { cols: u16, rows: u16 },
    ToastExpired,
    ExternalNotification {
        title: String,
        body: String,
        window: Option<usize>,
        pane: Option<u32>,
    },
}

} // verus!
