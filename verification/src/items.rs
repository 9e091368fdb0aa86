//! What tmux reports: panes, windows and the way a window is divided.

use vstd::prelude::*;

verus! {

/// How tmux names a session (`$` and a number).
pub type TmuxSessionId = u64;

/// How tmux names a window (`@` and a number).
pub type TmuxWindowId = u64;

/// How tmux names a pane (`%` and a number).
pub type TmuxPaneId = u64;

/// A pane as tmux describes it.
#[derive(Debug, Clone, Copy, PartialEq, Eq, Structural)]
pub struct PaneItem {
    pub session_id: TmuxSessionId,
    pub window_id: TmuxWindowId,
    pub pane_id: TmuxPaneId,
    pub _pane_index: u64,
    pub cursor_x: u64,
    pub cursor_y: u64,
    pub pane_width: u64,
    pub pane_height: u64,
    pub pane_left: u64,
    pub pane_top: u64,
    pub pane_active: bool,
}

/// One step in dividing a window: a row or a column of panes, or the one pane there is.
#[derive(Debug, PartialEq, Eq)]
pub enum TmuxLayout {
    SplitVertical(Vec<PaneItem>),
    SplitHorizontal(Vec<PaneItem>),
    SinglePane(PaneItem),
}

/// A window as tmux describes it.
#[derive(Debug, PartialEq, Eq)]
pub struct WindowItem {
    pub session_id: TmuxSessionId,
    pub window_id: TmuxWindowId,
    pub window_width: u64,
    pub window_height: u64,
    pub window_active: bool,
    pub layout: Vec<TmuxLayout>,
}

/// The model of a [`TmuxLayout`].
#[verifier::ext_equal]
pub enum LayoutView {
    SplitVertical(Seq<PaneItem>),
    SplitHorizontal(Seq<PaneItem>),
    SinglePane(PaneItem),
}

impl DeepView for TmuxLayout {
    type V = LayoutView;

    open spec fn deep_view(&self) -> LayoutView {
        match self {
            TmuxLayout::SplitVertical(panes) => LayoutView::SplitVertical(panes@),
            TmuxLayout::SplitHorizontal(panes) => LayoutView::SplitHorizontal(panes@),
            TmuxLayout::SinglePane(pane) => LayoutView::SinglePane(*pane),
        }
    }
}

impl LayoutView {
    /// The panes of a layout step, in order.
    pub open spec fn panes(self) -> Seq<PaneItem> {
        match self {
            LayoutView::SplitVertical(panes) => panes,
            LayoutView::SplitHorizontal(panes) => panes,
            LayoutView::SinglePane(pane) => seq![pane],
        }
    }

    /// The same layout step with every pane placed in the given session and window.
    pub open spec fn placed(self, session_id: TmuxSessionId, window_id: TmuxWindowId) -> LayoutView {
        match self {
            LayoutView::SplitVertical(panes) => LayoutView::SplitVertical(
                panes.map_values(|p: PaneItem| placed_pane(p, session_id, window_id)),
            ),
            LayoutView::SplitHorizontal(panes) => LayoutView::SplitHorizontal(
                panes.map_values(|p: PaneItem| placed_pane(p, session_id, window_id)),
            ),
            LayoutView::SinglePane(pane) => LayoutView::SinglePane(
                placed_pane(pane, session_id, window_id),
            ),
        }
    }
}

/// A pane placed in the given session and window.
pub open spec fn placed_pane(
    pane: PaneItem,
    session_id: TmuxSessionId,
    window_id: TmuxWindowId,
) -> PaneItem {
    PaneItem { session_id, window_id, ..pane }
}

/// The model of a [`WindowItem`].
#[verifier::ext_equal]
pub struct WindowView {
    pub session_id: TmuxSessionId,
    pub window_id: TmuxWindowId,
    pub window_width: u64,
    pub window_height: u64,
    pub window_active: bool,
    pub layout: Seq<LayoutView>,
}

impl DeepView for WindowItem {
    type V = WindowView;

    open spec fn deep_view(&self) -> WindowView {
        WindowView {
            session_id: self.session_id,
            window_id: self.window_id,
            window_width: self.window_width,
            window_height: self.window_height,
            window_active: self.window_active,
            layout: self.layout.deep_view(),
        }
    }
}

} // verus!
