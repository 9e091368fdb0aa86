//! Showing the windows that tmux lists.
//!
//! The tabs and panes themselves belong to the multiplexer. A [`WindowSync`] says what is to be
//! done with them, one [`SyncAction`] after the other, and goes on with what came of it.

use crate::commands::{Command, ListAllPanes};
use crate::domain::{
    cells_size, lemma_attached_is_known, size_in_cells, with_pane, DomainView, PaneId, TabId,
    TerminalSize, TmuxDomainState,
};
use crate::items::{
    LayoutView, PaneItem, TmuxLayout, TmuxPaneId, TmuxSessionId, TmuxWindowId, WindowItem,
    WindowView,
};
use crate::text::{decimal, push_decimal};
use vstd::prelude::*;

verus! {

/// How the multiplexer names a window of its own.
pub type WindowId = usize;

/// Which way a pane is divided.
#[derive(Debug, Clone, Copy, PartialEq, Eq, Structural)]
pub enum SplitDirection {
    Horizontal,
    Vertical,
}

/// How a pane is divided: the new pane comes first, within the pane and not across the tab, and
/// takes so many cells.
#[derive(Debug, Clone, Copy, PartialEq, Eq, Structural)]
pub struct SplitRequest {
    pub direction: SplitDirection,
    pub target_is_second: bool,
    pub top_level: bool,
    pub cells: usize,
}

/// Why the windows are not shown.
#[derive(Debug, Clone, Copy, PartialEq, Eq, Structural)]
pub enum SyncError {
    /// There is no window to show them in.
    NoGui,
    /// A pane is shown twice.
    AlreadyAttached,
    /// A pane that is shown is not in the tab.
    InvalidPane(PaneId),
    /// The tab of the active window is not in the window.
    TabNotInWindow { tab_id: TabId, gui_window: WindowId },
}

impl SyncError {
    pub open spec fn words(self) -> Seq<char> {
        match self {
            SyncError::NoGui => "No tmux gui created"@,
            SyncError::AlreadyAttached => "Tmux pane already attached"@,
            SyncError::InvalidPane(local) => "invalid pane id "@ + decimal(local as nat),
            SyncError::TabNotInWindow { tab_id, gui_window } => "tab "@ + decimal(tab_id as nat)
                + " not in "@ + decimal(gui_window as nat),
        }
    }

    /// The error in words.
    pub fn message(&self) -> (words: String)
        ensures
            words@ == self.words(),
    {
        match self {
            SyncError::NoGui => "No tmux gui created".to_owned(),
            SyncError::AlreadyAttached => "Tmux pane already attached".to_owned(),
            SyncError::InvalidPane(local) => {
                let mut words = "invalid pane id ".to_owned();
                push_decimal(&mut words, *local as u64);
                words
            },
            SyncError::TabNotInWindow { tab_id, gui_window } => {
                let mut words = "tab ".to_owned();
                push_decimal(&mut words, *tab_id as u64);
                words.append(" not in ");
                push_decimal(&mut words, *gui_window as u64);
                words
            },
        }
    }
}

/// The title of the tab that shows a window.
pub fn tab_title(window_id: TmuxWindowId) -> (title: String)
    ensures
        title@ == "Tmux window: "@ + decimal(window_id as nat),
{
    let mut title = "Tmux window: ".to_owned();
    push_decimal(&mut title, window_id);
    title
}

/// The title of the window that shows a session.
pub fn session_title(session_id: TmuxSessionId) -> (title: String)
    ensures
        title@ == "Tmux Session: "@ + decimal(session_id as nat),
{
    let mut title = "Tmux Session: ".to_owned();
    push_decimal(&mut title, session_id);
    title
}

/// What is to be done with the tabs and panes of the multiplexer.
#[derive(Debug, Clone, Copy, PartialEq, Eq, Structural)]
pub enum SyncAction {
    /// Make a window to show the session in, where there is none yet. Reply: its name, if there is
    /// one.
    OpenWindow,
    /// Make a tab of this size for a window, and let the multiplexer have it. Reply: its name.
    CreateTab { size: TerminalSize, window_id: TmuxWindowId },
    /// Make a pane of this size that shows a pane of tmux. Reply: its name.
    CreatePane { pane_id: TmuxPaneId, size: TerminalSize },
    /// Make a pane the only one of a tab. Reply: done.
    AssignPane { tab_id: TabId, local_pane_id: PaneId },
    /// Let the multiplexer have a pane. Reply: done.
    AddPane { local_pane_id: PaneId },
    /// Reply: whether a tab has an active pane.
    QueryActivePane { tab_id: TabId },
    /// Reply: the place of the active pane in a tab.
    QueryActiveIndex { tab_id: TabId },
    /// Divide the pane at a place of a tab. Reply: the place of the new pane, if it was done.
    SplitPane { tab_id: TabId, local_pane_id: PaneId, index: usize, request: SplitRequest },
    /// Reply: the place of a pane in a tab, if it is there.
    FindPane { tab_id: TabId, local_pane_id: PaneId },
    /// Put a tab into a window, and make that known. Reply: whether it was done.
    AddTab { tab_id: TabId, gui_window: WindowId },
    /// Give a window the title of the session. Reply: whether there is such a window.
    ShowTitle { gui_window: WindowId, session_id: TmuxSessionId },
    /// Reply: the place of a tab in a window, if it is there.
    FindTab { gui_window: WindowId, tab_id: TabId },
    /// Make the tab at a place of a window the active one. Reply: done.
    ActivateTab { gui_window: WindowId, index: usize },
    /// All is shown: send the next command that waits.
    Finish,
    /// Give up, for this reason.
    Fail(SyncError),
    /// Give up, for the reason for which the last action was not done.
    Abort,
}

/// What came of an action.
#[derive(Debug, Clone, Copy, PartialEq, Eq, Structural)]
pub enum SyncReply {
    /// It is done.
    Done,
    /// A name or a place.
    Name(usize),
    /// Yes or no.
    Flag(bool),
    /// A name or a place, if there is one.
    Place(Option<usize>),
}

/// What is waited for.
#[derive(Debug, Clone, Copy, PartialEq, Eq, Structural)]
pub enum Phase {
    /// The window to show the session in.
    Gui,
    /// The tab of a window.
    Tab,
    /// The pane of a window that has only that one.
    SinglePane,
    SingleAssigned,
    SingleAdded,
    /// A pane of a window that has more than one.
    SplitPane,
    SplitAdded,
    SplitActive,
    SplitAssigned,
    SplitIndexed,
    Splitting,
    /// The place of a pane that is shown already.
    Finding,
    /// The tab in its window.
    TabAdded,
    /// The title of the window.
    Titled,
    TabFound,
    Activated,
    /// Nothing.
    Over,
}

/// The showing of listed windows.
#[derive(Debug)]
pub struct WindowSync {
    windows: Vec<WindowItem>,
    session: TmuxSessionId,
    gui_window: WindowId,
    window: usize,
    layout: usize,
    pane: usize,
    tab: TabId,
    local: PaneId,
    split_index: usize,
    active_tab: Option<TabId>,
    shown_session: TmuxSessionId,
    phase: Phase,
}

/// The model of a [`WindowSync`]: the listed windows, the session to show, the window to show it
/// in; how far it has come (window, layout step, pane); the tab and the pane at hand; the place in
/// the tab where the next pane is split off; the tab of the active window; the session of the last
/// window that was shown; and what is waited for.
#[verifier::ext_equal]
pub struct SyncView {
    pub windows: Seq<WindowView>,
    pub session: TmuxSessionId,
    pub gui_window: WindowId,
    pub window: int,
    pub layout: int,
    pub pane: int,
    pub tab: TabId,
    pub local: PaneId,
    pub split_index: usize,
    pub active_tab: Option<TabId>,
    pub shown_session: TmuxSessionId,
    pub phase: Phase,
}

impl View for WindowSync {
    type V = SyncView;

    closed spec fn view(&self) -> SyncView {
        SyncView {
            windows: self.windows.deep_view(),
            session: self.session,
            gui_window: self.gui_window,
            window: self.window as int,
            layout: self.layout as int,
            pane: self.pane as int,
            tab: self.tab,
            local: self.local,
            split_index: self.split_index,
            active_tab: self.active_tab,
            shown_session: self.shown_session,
            phase: self.phase,
        }
    }
}

/// The first window, from `from` on, that belongs to the session; the number of windows where
/// none does.
pub open spec fn next_window(windows: Seq<WindowView>, session: TmuxSessionId, from: int) -> int
    decreases windows.len() - from,
{
    if 0 <= from < windows.len() {
        if windows[from].session_id == session {
            from
        } else {
            next_window(windows, session, from + 1)
        }
    } else {
        windows.len() as int
    }
}

pub proof fn lemma_next_window(windows: Seq<WindowView>, session: TmuxSessionId, from: int)
    requires
        0 <= from <= windows.len(),
    ensures
        from <= next_window(windows, session, from) <= windows.len(),
        next_window(windows, session, from) < windows.len()
            ==> windows[next_window(windows, session, from)].session_id == session,
        forall|i: int|
            from <= i < next_window(windows, session, from) ==> (#[trigger] windows[i]).session_id
                != session,
    decreases windows.len() - from,
{
    if from < windows.len() && windows[from].session_id != session {
        lemma_next_window(windows, session, from + 1);
    }
}

/// How a pane of a layout step is split off: as wide as it is in a row, as high as it is in a
/// column.
pub open spec fn split_request(step: LayoutView, pane: PaneItem) -> SplitRequest {
    let across = step is SplitHorizontal;
    SplitRequest {
        direction: if across {
            SplitDirection::Horizontal
        } else {
            SplitDirection::Vertical
        },
        target_is_second: false,
        top_level: false,
        cells: if across {
            pane.pane_width as usize
        } else {
            pane.pane_height as usize
        },
    }
}

impl SyncView {
    /// The window at hand.
    pub open spec fn at_window(self) -> WindowView {
        self.windows[self.window]
    }

    /// The layout step at hand.
    pub open spec fn at_layout(self) -> LayoutView {
        self.at_window().layout[self.layout]
    }

    /// The pane at hand.
    pub open spec fn at_pane(self) -> PaneItem {
        self.at_layout().panes()[self.pane]
    }

    /// How the pane at hand is split off.
    pub open spec fn request(self) -> SplitRequest {
        split_request(self.at_layout(), self.at_pane())
    }

    /// Whether a window is at hand.
    pub open spec fn in_window(self) -> bool {
        0 <= self.window < self.windows.len()
    }

    /// Whether a pane is at hand.
    pub open spec fn in_layout(self) -> bool {
        &&& self.in_window()
        &&& 0 <= self.layout < self.at_window().layout.len()
        &&& 0 <= self.pane < self.at_layout().panes().len()
    }

    /// What is waited for is there to be waited for.
    pub open spec fn wf(self) -> bool {
        match self.phase {
            Phase::Gui => true,
            Phase::Tab => self.in_window(),
            Phase::SinglePane | Phase::SingleAssigned | Phase::SingleAdded => self.in_layout()
                && self.at_layout() is SinglePane,
            Phase::SplitPane | Phase::SplitAdded | Phase::SplitActive | Phase::SplitAssigned
            | Phase::SplitIndexed | Phase::Splitting | Phase::Finding => self.in_layout()
                && !(self.at_layout() is SinglePane),
            Phase::TabAdded => self.in_window(),
            Phase::TabFound => self.active_tab is Some,
            Phase::Titled | Phase::Activated | Phase::Over => true,
        }
    }

    /// The pane at hand is known to the domain before it is said to be shown.
    pub open spec fn known(self, d: DomainView) -> bool {
        self.phase is SingleAssigned ==> d.remotes.contains_key(self.at_pane().pane_id)
    }

    /// Whether a reply is of the kind that is waited for. A pane that is split off is not at the
    /// last place there can be.
    pub open spec fn fits(self, reply: SyncReply) -> bool {
        match self.phase {
            Phase::Tab | Phase::SinglePane | Phase::SplitPane | Phase::SplitIndexed => reply is Name,
            Phase::SingleAssigned | Phase::SingleAdded | Phase::SplitAdded | Phase::SplitAssigned
            | Phase::Activated => reply is Done,
            Phase::SplitActive | Phase::TabAdded | Phase::Titled => reply is Flag,
            Phase::Splitting => match reply {
                SyncReply::Place(Some(place)) => place < usize::MAX,
                SyncReply::Place(None) => true,
                _ => false,
            },
            Phase::Gui | Phase::Finding | Phase::TabFound => reply is Place,
            Phase::Over => false,
        }
    }

    /// Goes on with the first window of the session from `from` on, or, where there is none, with
    /// the title of the window.
    pub open spec fn enter(self, from: int) -> (SyncView, SyncAction) {
        let window = next_window(self.windows, self.session, from);
        if window < self.windows.len() {
            let w = self.windows[window];
            (
                SyncView { window, phase: Phase::Tab, ..self },
                SyncAction::CreateTab {
                    size: cells_size(w.window_width, w.window_height),
                    window_id: w.window_id,
                },
            )
        } else {
            (
                SyncView { window, phase: Phase::Titled, ..self },
                SyncAction::ShowTitle {
                    gui_window: self.gui_window,
                    session_id: self.shown_session,
                },
            )
        }
    }

    /// Puts the tab at hand into its window.
    pub open spec fn leave(self) -> (SyncView, SyncAction) {
        (
            SyncView { phase: Phase::TabAdded, ..self },
            SyncAction::AddTab { tab_id: self.tab, gui_window: self.gui_window },
        )
    }

    /// Goes on with the pane at hand, or with what comes after it where all panes of the layout
    /// step are dealt with.
    pub open spec fn proceed(self, d: DomainView) -> (SyncView, SyncAction)
        decreases self.at_window().layout.len() - self.layout,
    {
        if !(0 <= self.layout < self.at_window().layout.len()) {
            self.leave()
        } else if self.at_layout() is SinglePane {
            let st = SyncView { pane: 0, phase: Phase::SinglePane, ..self };
            (st, st.create())
        } else if self.pane >= self.at_layout().panes().len() {
            SyncView { layout: self.layout + 1, pane: 0, ..self }.proceed(d)
        } else if d.attached(self.at_pane()) {
            let local = d.remotes[self.at_pane().pane_id].local_pane_id;
            (
                SyncView { local, phase: Phase::Finding, ..self },
                SyncAction::FindPane { tab_id: self.tab, local_pane_id: local },
            )
        } else {
            (SyncView { phase: Phase::SplitPane, ..self }, self.create())
        }
    }

    /// Makes the pane at hand.
    pub open spec fn create(self) -> SyncAction {
        let pane = self.at_pane();
        SyncAction::CreatePane {
            pane_id: pane.pane_id,
            size: cells_size(pane.pane_width, pane.pane_height),
        }
    }

    /// At the first pane of the window at hand, with a tab to show it.
    pub open spec fn in_tab(self, tab: TabId) -> SyncView {
        SyncView {
            tab,
            active_tab: if self.at_window().window_active {
                Some(tab)
            } else {
                self.active_tab
            },
            split_index: 1,
            layout: 0,
            pane: 0,
            ..self
        }
    }

    /// Behind the pane at hand, with the next one split off at `place`.
    pub open spec fn past_pane(self, place: usize) -> SyncView {
        SyncView { split_index: place, pane: self.pane + 1, ..self }
    }

    /// Gives up.
    pub open spec fn over(self) -> SyncView {
        SyncView { phase: Phase::Over, ..self }
    }

    /// Waits for something else.
    pub open spec fn wait(self, phase: Phase) -> SyncView {
        SyncView { phase, ..self }
    }

    /// Goes on with a reply: what is waited for then, what is known then, and what is to be done.
    pub open spec fn step(self, d: DomainView, reply: SyncReply) -> (
        SyncView,
        DomainView,
        SyncAction,
    ) {
        let keep = |next: (SyncView, SyncAction)| (next.0, d, next.1);
        match (self.phase, reply) {
            (Phase::Gui, SyncReply::Place(Some(gui_window))) => keep(
                SyncView { gui_window, ..self }.enter(0),
            ),
            (Phase::Gui, _) => (self.over(), d, SyncAction::Fail(SyncError::NoGui)),
            (Phase::Tab, SyncReply::Name(tab)) => keep(self.in_tab(tab).proceed(d)),
            (Phase::SinglePane, SyncReply::Name(local)) => (
                SyncView { local, phase: Phase::SingleAssigned, ..self },
                d.with_remote(self.at_window(), self.at_pane(), local),
                SyncAction::AssignPane { tab_id: self.tab, local_pane_id: local },
            ),
            (Phase::SingleAssigned, _) => if d.attached(self.at_pane()) {
                (self.over(), d, SyncAction::Fail(SyncError::AlreadyAttached))
            } else {
                (
                    self.wait(Phase::SingleAdded),
                    d.with_attached(self.at_pane(), self.tab),
                    SyncAction::AddPane { local_pane_id: self.local },
                )
            },
            (Phase::SingleAdded, _) => keep(self.leave()),
            (Phase::SplitPane, SyncReply::Name(local)) => {
                let d1 = d.with_remote(self.at_window(), self.at_pane(), local);
                let st = SyncView { local, ..self };
                if d.attached(self.at_pane()) {
                    (st.over(), d1, SyncAction::Fail(SyncError::AlreadyAttached))
                } else {
                    (
                        st.wait(Phase::SplitAdded),
                        d1.with_attached(self.at_pane(), self.tab),
                        SyncAction::AddPane { local_pane_id: local },
                    )
                }
            },
            (Phase::SplitAdded, _) => (
                self.wait(Phase::SplitActive),
                d,
                SyncAction::QueryActivePane { tab_id: self.tab },
            ),
            (Phase::SplitActive, SyncReply::Flag(true)) => (
                self.wait(Phase::Splitting),
                d,
                SyncAction::SplitPane {
                    tab_id: self.tab,
                    local_pane_id: self.local,
                    index: self.split_index,
                    request: self.request(),
                },
            ),
            (Phase::SplitActive, _) => (
                self.wait(Phase::SplitAssigned),
                d,
                SyncAction::AssignPane { tab_id: self.tab, local_pane_id: self.local },
            ),
            (Phase::SplitAssigned, _) => (
                self.wait(Phase::SplitIndexed),
                d,
                SyncAction::QueryActiveIndex { tab_id: self.tab },
            ),
            (Phase::SplitIndexed, SyncReply::Name(place)) => keep(self.past_pane(place).proceed(d)),
            (Phase::Splitting, SyncReply::Place(Some(place))) => keep(
                self.past_pane((place + 1) as usize).proceed(d),
            ),
            (Phase::Finding, SyncReply::Place(Some(place))) => keep(self.past_pane(place).proceed(d)),
            (Phase::Finding, _) => (
                self.over(),
                d,
                SyncAction::Fail(SyncError::InvalidPane(self.local)),
            ),
            (Phase::TabAdded, SyncReply::Flag(true)) => keep(
                SyncView { shown_session: self.at_window().session_id, ..self }.enter(
                    self.window + 1,
                ),
            ),
            (Phase::Titled, SyncReply::Flag(true)) => match self.active_tab {
                Some(tab_id) => (
                    self.wait(Phase::TabFound),
                    d,
                    SyncAction::FindTab { gui_window: self.gui_window, tab_id },
                ),
                None => self.finish(d),
            },
            (Phase::TabFound, SyncReply::Place(Some(index))) => (
                self.wait(Phase::Activated),
                d,
                SyncAction::ActivateTab { gui_window: self.gui_window, index },
            ),
            (Phase::TabFound, _) => (
                self.over(),
                d,
                SyncAction::Fail(
                    SyncError::TabNotInWindow {
                        tab_id: self.active_tab->0,
                        gui_window: self.gui_window,
                    },
                ),
            ),
            (Phase::Titled, _) | (Phase::Activated, _) => self.finish(d),
            _ => (self.over(), d, SyncAction::Abort),
        }
    }

    /// All is shown: the panes are to be listed.
    pub open spec fn finish(self, d: DomainView) -> (SyncView, DomainView, SyncAction) {
        (self.over(), d.with_command(Command::ListAllPanes(ListAllPanes)), SyncAction::Finish)
    }
}

impl DomainView {
    /// The domain once a pane is shown.
    pub open spec fn with_attached(self, pane: PaneItem, tab_id: TabId) -> DomainView {
        DomainView {
            tabs: with_pane(self.tabs, pane.window_id, pane.pane_id, tab_id),
            ..self
        }
    }
}

/// The showing of windows before the first of them.
pub open spec fn start(windows: Seq<WindowView>, session: TmuxSessionId) -> SyncView {
    SyncView {
        windows,
        session,
        gui_window: 0,
        window: 0,
        layout: 0,
        pane: 0,
        tab: 0,
        local: 0,
        split_index: 1,
        active_tab: None,
        shown_session: 0,
        phase: Phase::Gui,
    }
}

impl WindowSync {
    /// Goes on with the first window of the session from `from` on.
    fn enter(&mut self, from: usize) -> (action: SyncAction)
        requires
            from <= old(self)@.windows.len(),
        ensures
            (final(self)@, action) == old(self)@.enter(from as int),
            final(self)@.wf(),
    {
        proof {
            lemma_next_window(self@.windows, self@.session, from as int);
        }
        let mut i: usize = from;
        while i < self.windows.len() && self.windows[i].session_id != self.session
            invariant
                from <= i <= self@.windows.len(),
                self@ == old(self)@,
                self@.windows.len() == self.windows@.len(),
                next_window(self@.windows, self@.session, from as int) == next_window(
                    self@.windows,
                    self@.session,
                    i as int,
                ),
            decreases self.windows.len() - i,
        {
            i = i + 1;
        }
        self.window = i;
        if i < self.windows.len() {
            self.phase = Phase::Tab;
            let window = &self.windows[i];
            SyncAction::CreateTab {
                size: size_in_cells(window.window_width, window.window_height),
                window_id: window.window_id,
            }
        } else {
            self.phase = Phase::Titled;
            SyncAction::ShowTitle { gui_window: self.gui_window, session_id: self.shown_session }
        }
    }
}

impl TmuxDomainState {
    /// Begins to show the windows that tmux lists.
    pub fn sync_window_state(&self, windows: Vec<WindowItem>) -> (begun: (WindowSync, SyncAction))
        ensures
            begun.0@ == start(windows.deep_view(), self@.current_session()),
            begun.1 == SyncAction::OpenWindow,
            begun.0@.wf(),
            begun.0@.known(self@),
    {
        let sync = WindowSync {
            windows,
            session: self.current_session(),
            gui_window: 0,
            window: 0,
            layout: 0,
            pane: 0,
            tab: 0,
            local: 0,
            split_index: 1,
            active_tab: None,
            shown_session: 0,
            phase: Phase::Gui,
        };
        (sync, SyncAction::OpenWindow)
    }
}

impl WindowSync {
    fn pane_at_hand(&self) -> (pane: PaneItem)
        requires
            self@.in_layout(),
        ensures
            pane == self@.at_pane(),
    {
        match &self.windows[self.window].layout[self.layout] {
            TmuxLayout::SinglePane(pane) => *pane,
            TmuxLayout::SplitHorizontal(panes) => panes[self.pane],
            TmuxLayout::SplitVertical(panes) => panes[self.pane],
        }
    }

    /// How many panes the layout step at hand has, where it is not a single one.
    fn split_len(&self) -> (len: Option<usize>)
        requires
            self@.in_window(),
            0 <= self@.layout < self@.at_window().layout.len(),
        ensures
            match len {
                None => self@.at_layout() is SinglePane,
                Some(n) => !(self@.at_layout() is SinglePane) && n == self@.at_layout().panes().len(),
            },
    {
        match &self.windows[self.window].layout[self.layout] {
            TmuxLayout::SinglePane(_) => None,
            TmuxLayout::SplitHorizontal(panes) => Some(panes.len()),
            TmuxLayout::SplitVertical(panes) => Some(panes.len()),
        }
    }

    fn request(&self) -> (request: SplitRequest)
        requires
            self@.in_layout(),
        ensures
            request == self@.request(),
    {
        let pane = self.pane_at_hand();
        match &self.windows[self.window].layout[self.layout] {
            TmuxLayout::SplitHorizontal(_) => SplitRequest {
                direction: SplitDirection::Horizontal,
                target_is_second: false,
                top_level: false,
                cells: pane.pane_width as usize,
            },
            _ => SplitRequest {
                direction: SplitDirection::Vertical,
                target_is_second: false,
                top_level: false,
                cells: pane.pane_height as usize,
            },
        }
    }

    fn create(&self) -> (action: SyncAction)
        requires
            self@.in_layout(),
        ensures
            action == self@.create(),
    {
        let pane = self.pane_at_hand();
        SyncAction::CreatePane {
            pane_id: pane.pane_id,
            size: size_in_cells(pane.pane_width, pane.pane_height),
        }
    }

    fn leave(&mut self) -> (action: SyncAction)
        ensures
            (final(self)@, action) == old(self)@.leave(),
    {
        self.phase = Phase::TabAdded;
        SyncAction::AddTab { tab_id: self.tab, gui_window: self.gui_window }
    }

    /// Goes on with the pane at hand.
    fn proceed(&mut self, domain: &TmuxDomainState) -> (action: SyncAction)
        requires
            old(self)@.in_window(),
            domain@.wf(),
        ensures
            (final(self)@, action) == old(self)@.proceed(domain@),
            final(self)@.wf(),
            final(self)@.known(domain@),
    {
        while self.layout < self.windows[self.window].layout.len()
            invariant
                self@.in_window(),
                domain@.wf(),
                self@.windows == old(self)@.windows,
                self@.window == old(self)@.window,
                old(self)@.proceed(domain@) == self@.proceed(domain@),
            decreases self@.at_window().layout.len() - self.layout,
        {
            match self.split_len() {
                None => {
                    self.pane = 0;
                    self.phase = Phase::SinglePane;
                    return self.create();
                },
                Some(len) => {
                    if self.pane < len {
                        let pane = self.pane_at_hand();
                        if domain.check_pane_attached(&pane) {
                            proof {
                                lemma_attached_is_known(domain@, pane);
                            }
                            match domain.local_pane(pane.pane_id) {
                                Some(local) => {
                                    self.local = local;
                                },
                                None => {},
                            }
                            self.phase = Phase::Finding;
                            return SyncAction::FindPane {
                                tab_id: self.tab,
                                local_pane_id: self.local,
                            };
                        } else {
                            self.phase = Phase::SplitPane;
                            return self.create();
                        }
                    }
                    self.layout = self.layout + 1;
                    self.pane = 0;
                },
            }
        }
        self.leave()
    }

    /// Goes on after the pane at hand.
    fn after_pane(&mut self, place: usize, domain: &TmuxDomainState) -> (action: SyncAction)
        requires
            old(self)@.in_layout(),
            domain@.wf(),
        ensures
            (final(self)@, action) == old(self)@.past_pane(place).proceed(domain@),
            final(self)@.wf(),
            final(self)@.known(domain@),
    {
        proof {
            match self.windows[self.window as int].layout[self.layout as int] {
                TmuxLayout::SinglePane(_) => {},
                TmuxLayout::SplitHorizontal(panes) => assert(self.pane < panes.len()),
                TmuxLayout::SplitVertical(panes) => assert(self.pane < panes.len()),
            }
        }
        self.split_index = place;
        self.pane = self.pane + 1;
        self.proceed(domain)
    }

    fn finish(&mut self, domain: &mut TmuxDomainState) -> (action: SyncAction)
        ensures
            (final(self)@, final(domain)@, action) == old(self)@.finish(old(domain)@),
            old(domain)@.wf() ==> final(domain)@.wf(),
    {
        self.phase = Phase::Over;
        domain.queue_command(Command::ListAllPanes(ListAllPanes));
        SyncAction::Finish
    }

    /// Whether a reply is of the kind that is waited for.
    pub fn expects(&self, reply: SyncReply) -> (yes: bool)
        ensures
            yes == self@.fits(reply),
    {
        match self.phase {
            Phase::Tab | Phase::SinglePane | Phase::SplitPane | Phase::SplitIndexed => match reply {
                SyncReply::Name(_) => true,
                _ => false,
            },
            Phase::SingleAssigned | Phase::SingleAdded | Phase::SplitAdded | Phase::SplitAssigned
            | Phase::Activated => match reply {
                SyncReply::Done => true,
                _ => false,
            },
            Phase::SplitActive | Phase::TabAdded | Phase::Titled => match reply {
                SyncReply::Flag(_) => true,
                _ => false,
            },
            Phase::Splitting => match reply {
                SyncReply::Place(Some(place)) => place < usize::MAX,
                SyncReply::Place(None) => true,
                _ => false,
            },
            Phase::Gui | Phase::Finding | Phase::TabFound => match reply {
                SyncReply::Place(_) => true,
                _ => false,
            },
            Phase::Over => false,
        }
    }

    /// Goes on with what came of the last action, and says what is to be done next.
    pub fn resume(&mut self, domain: &mut TmuxDomainState, reply: SyncReply) -> (action: SyncAction)
        requires
            old(self)@.wf(),
            old(self)@.known(old(domain)@),
            old(domain)@.wf(),
            old(self)@.fits(reply),
        ensures
            (final(self)@, final(domain)@, action) == old(self)@.step(old(domain)@, reply),
            final(self)@.wf(),
            final(self)@.known(final(domain)@),
            final(domain)@.wf(),
    {
        match (self.phase, reply) {
            (Phase::Gui, SyncReply::Place(Some(gui_window))) => {
                self.gui_window = gui_window;
                self.enter(0)
            },
            (Phase::Gui, _) => {
                self.phase = Phase::Over;
                SyncAction::Fail(SyncError::NoGui)
            },
            (Phase::Tab, SyncReply::Name(tab)) => {
                self.tab = tab;
                if self.windows[self.window].window_active {
                    self.active_tab = Some(tab);
                }
                self.split_index = 1;
                self.layout = 0;
                self.pane = 0;
                self.proceed(domain)
            },
            (Phase::SinglePane, SyncReply::Name(local)) => {
                let pane = self.pane_at_hand();
                domain.create_pane(&self.windows[self.window], &pane, local);
                self.local = local;
                self.phase = Phase::SingleAssigned;
                SyncAction::AssignPane { tab_id: self.tab, local_pane_id: local }
            },
            (Phase::SingleAssigned, _) => {
                let pane = self.pane_at_hand();
                match domain.add_attached_pane(&pane, &self.tab) {
                    Ok(()) => {
                        self.phase = Phase::SingleAdded;
                        SyncAction::AddPane { local_pane_id: self.local }
                    },
                    Err(_) => {
                        self.phase = Phase::Over;
                        SyncAction::Fail(SyncError::AlreadyAttached)
                    },
                }
            },
            (Phase::SingleAdded, _) => self.leave(),
            (Phase::SplitPane, SyncReply::Name(local)) => {
                let pane = self.pane_at_hand();
                domain.create_pane(&self.windows[self.window], &pane, local);
                self.local = local;
                match domain.add_attached_pane(&pane, &self.tab) {
                    Ok(()) => {
                        self.phase = Phase::SplitAdded;
                        SyncAction::AddPane { local_pane_id: local }
                    },
                    Err(_) => {
                        self.phase = Phase::Over;
                        SyncAction::Fail(SyncError::AlreadyAttached)
                    },
                }
            },
            (Phase::SplitAdded, _) => {
                self.phase = Phase::SplitActive;
                SyncAction::QueryActivePane { tab_id: self.tab }
            },
            (Phase::SplitActive, SyncReply::Flag(true)) => {
                self.phase = Phase::Splitting;
                SyncAction::SplitPane {
                    tab_id: self.tab,
                    local_pane_id: self.local,
                    index: self.split_index,
                    request: self.request(),
                }
            },
            (Phase::SplitActive, _) => {
                self.phase = Phase::SplitAssigned;
                SyncAction::AssignPane { tab_id: self.tab, local_pane_id: self.local }
            },
            (Phase::SplitAssigned, _) => {
                self.phase = Phase::SplitIndexed;
                SyncAction::QueryActiveIndex { tab_id: self.tab }
            },
            (Phase::SplitIndexed, SyncReply::Name(place)) => self.after_pane(place, domain),
            (Phase::Splitting, SyncReply::Place(Some(place))) => self.after_pane(place + 1, domain),
            (Phase::Finding, SyncReply::Place(Some(place))) => self.after_pane(place, domain),
            (Phase::Finding, _) => {
                self.phase = Phase::Over;
                SyncAction::Fail(SyncError::InvalidPane(self.local))
            },
            (Phase::TabAdded, SyncReply::Flag(true)) => {
                self.shown_session = self.windows[self.window].session_id;
                assert(self.window < self.windows.len());
                let next: usize = self.window + 1;
                self.enter(next)
            },
            (Phase::Titled, SyncReply::Flag(true)) => match self.active_tab {
                Some(tab_id) => {
                    self.phase = Phase::TabFound;
                    SyncAction::FindTab { gui_window: self.gui_window, tab_id }
                },
                None => self.finish(domain),
            },
            (Phase::TabFound, SyncReply::Place(Some(index))) => {
                self.phase = Phase::Activated;
                SyncAction::ActivateTab { gui_window: self.gui_window, index }
            },
            (Phase::TabFound, _) => {
                self.phase = Phase::Over;
                match self.active_tab {
                    Some(tab_id) => SyncAction::Fail(
                        SyncError::TabNotInWindow { tab_id, gui_window: self.gui_window },
                    ),
                    None => SyncAction::Abort,
                }
            },
            (Phase::Titled, _) => self.finish(domain),
            (Phase::Activated, _) => self.finish(domain),
            _ => {
                self.phase = Phase::Over;
                SyncAction::Abort
            },
        }
    }
}

} // verus!
