//! The Laura engine: the split tree a tab arranges its panes in, a panel's review state,
//! the git-diff gutter fold, the session journal's naming rules, and the byte encodings the
//! terminal front-end sends (keys, mouse reports, clipboard, bracketed paste).

pub mod text;
pub mod protocol;
pub mod layout;
pub mod gitdiff;
pub mod pty;
pub mod mouse;
pub mod keys;
pub mod style;
pub mod render;
pub mod code;
pub mod wrap;
pub mod panel;
pub mod rows;
pub mod journal;
pub mod tab;
pub mod ui;
pub mod markdown;
pub mod input;
pub mod select;

pub use layout::{Layout, Rect, pane_at, rects};
pub use pty::dsr_reply;
pub use panel::{bracketed_paste, wrap_line};
pub use protocol::{Dir, PaneId, PaneKind, Side, PTY_PANE};
