//! The wire vocabulary a tab speaks: pane ids, split orientation, requests and responses.
//! Framing and transport (NDJSON over a local socket) live with the front-end.

use vstd::prelude::*;

verus! {

/// Per-tab pane handle. Minted on `open`, stable for the pane's lifetime; the PTY is always `0`.
pub type PaneId = u64;

/// The shell pane: reserved, always present, never closed.
pub const PTY_PANE: PaneId = 0;

/// Split orientation. `Horizontal` = side-by-side, `Vertical` = stacked.
#[derive(Debug, Clone, Copy, PartialEq, Eq, Structural)]
pub enum Dir {
    Horizontal,
    Vertical,
}

impl Default for Dir {
    fn default() -> (d: Dir)
        ensures
            d == Dir::Horizontal,
    {
        Dir::Horizontal
    }
}

/// Which side of a new split the *new* pane lands on.
#[derive(Debug, Clone, Copy, PartialEq, Eq, Structural)]
pub enum Side {
    First,
    Second,
}

impl Default for Side {
    fn default() -> (s: Side)
        ensures
            s == Side::Second,
    {
        Side::Second
    }
}

/// Whether a pane hosts the shell or a file panel.
#[derive(Debug, Clone, Copy, PartialEq, Eq, Structural)]
pub enum PaneKind {
    Pty,
    Panel,
}

/// The default share of a split given to a newly opened panel.
pub fn default_ratio() -> (r: u16)
    ensures
        r == 50,
{
    50
}

/// Serializable mirror of a rectangle.
#[derive(Debug, Clone, Copy, PartialEq, Eq, Structural)]
pub struct RectDto {
    pub x: u16,
    pub y: u16,
    pub width: u16,
    pub height: u16,
}

/// One pane's placement and whether its content fits.
#[derive(Debug, Clone, PartialEq, Eq)]
pub struct PaneReport {
    pub id: PaneId,
    pub kind: PaneKind,
    pub path: Option<String>,
    pub rect: RectDto,
    /// Wrapped content height; `None` for the PTY (its grid always fits its rect).
    pub content_rows: Option<usize>,
    pub visible_rows: usize,
    /// `content_rows - visible_rows`, floored at 0.
    pub overflow_rows: usize,
    /// Content overflows, or the rect is too small to be usable.
    pub clipped: bool,
}

/// Geometry + overflow for every pane at the current terminal size.
#[derive(Debug, Clone, PartialEq, Eq)]
pub struct LayoutReport {
    pub area: RectDto,
    pub panes: Vec<PaneReport>,
}

/// A single request sent to a tab.
#[allow(inconsistent_fields)]
#[derive(Debug, Clone, PartialEq, Eq)]
pub enum Message {
    /// Open `path` in a new panel, splitting `split` (or the focused pane).
    Open {
        path: String,
        split: Option<PaneId>,
        dir: Dir,
        /// Percent of the split given to the new panel, 1..=99.
        ratio: u16,
        side: Side,
        /// Move focus into the new panel.
        focus: bool,
        /// Autoscroll: pin the cursor to the last line on open and every reload.
        follow: bool,
        /// Report the would-be layout without committing.
        dry_run: bool,
        /// Highlight this 1-based inclusive line range once the panel is open.
        highlight: Option<(u32, u32)>,
        /// Open straight into the inline diff view.
        diff: bool,
    },
    /// Close a pane. `None` = the focused panel; `all` returns to PTY-only.
    Close { pane: Option<PaneId>, all: bool },
    /// Focus a pane by stable id.
    Focus { pane: PaneId },
    /// Highlight lines `start..=end` (1-based) in a panel; `end` defaults to `start`.
    Highlight { pane: Option<PaneId>, start: u32, end: Option<u32> },
    /// Toggle (`None`) or set the inline diff view on a panel.
    DiffView { pane: Option<PaneId>, on: Option<bool> },
    /// Pin an agent note to a 1-based file line of a panel.
    Comment { pane: Option<PaneId>, line: u32, body: Option<String>, author: Option<String> },
    /// Query the current layout + per-pane geometry/overflow.
    Layout,
    /// Mark the tab as hosting an agent; optionally names the journal session and agent.
    Ready { session: Option<String>, agent: Option<String> },
    /// Append a meta-signal to the journal.
    Feedback { sentiment: String, body: Option<String> },
    /// Reserved re-render nudge.
    Update { path: String },
}

/// The tab's answer to a request.
#[derive(Debug, Clone, PartialEq, Eq)]
pub enum Response {
    /// Mutation succeeded, nothing to report (`ok` on the wire).
    Done,
    /// `open` succeeded; carries the new pane id and any non-fatal nudges.
    Opened { pane: PaneId, warnings: Vec<String> },
    /// Answers `Layout` and dry-run `Open`.
    Report(LayoutReport),
    /// `ready` succeeded; carries the session's journal path.
    Ready { journal: String },
    /// The request failed.
    Error { message: String },
}

} // verus!
