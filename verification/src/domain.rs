//! What is known of the tmux session: which window is shown in which tab, which panes are shown,
//! and which commands wait to be sent.

use crate::commands::{CapturePane, Command};
use crate::items::{PaneItem, TmuxPaneId, TmuxSessionId, TmuxWindowId, WindowItem, WindowView};
use std::collections::{HashMap, HashSet, VecDeque};
use vstd::prelude::*;

verus! {

broadcast use vstd::std_specs::hash::group_hash_axioms;

/// How the multiplexer names a pane.
pub type PaneId = usize;

/// How the multiplexer names a tab.
pub type TabId = usize;

/// The tab that shows a window of tmux, and the panes of that window that it shows.
#[derive(Debug)]
pub struct TmuxTab {
    pub tab_id: TabId,
    pub tmux_window_id: TmuxWindowId,
    pub panes: HashSet<TmuxPaneId>,
}

/// The model of a [`TmuxTab`].
#[verifier::ext_equal]
pub struct TabView {
    pub tab_id: TabId,
    pub tmux_window_id: TmuxWindowId,
    pub panes: Set<TmuxPaneId>,
}

impl DeepView for TmuxTab {
    type V = TabView;

    open spec fn deep_view(&self) -> TabView {
        TabView {
            tab_id: self.tab_id,
            tmux_window_id: self.tmux_window_id,
            panes: self.panes@,
        }
    }
}

/// A pane of tmux and the pane that shows it.
#[derive(Debug, Clone, Copy, PartialEq, Eq, Structural)]
pub struct TmuxRemotePane {
    pub local_pane_id: PaneId,
    pub session_id: TmuxSessionId,
    pub window_id: TmuxWindowId,
    pub pane_id: TmuxPaneId,
    pub cursor_x: u64,
    pub cursor_y: u64,
    pub pane_width: u64,
    pub pane_height: u64,
    pub pane_left: u64,
    pub pane_top: u64,
}

/// What is known of the tmux session.
#[derive(Debug)]
pub struct TmuxDomainState {
    tmux_session: Option<TmuxSessionId>,
    gui_tabs: Vec<TmuxTab>,
    remote_panes: HashMap<TmuxPaneId, TmuxRemotePane>,
    cmd_queue: VecDeque<Command>,
}

/// The model of a [`TmuxDomainState`].
#[verifier::ext_equal]
pub struct DomainView {
    pub session: Option<TmuxSessionId>,
    pub tabs: Seq<TabView>,
    pub remotes: Map<TmuxPaneId, TmuxRemotePane>,
    pub queue: Seq<Command>,
}

impl View for TmuxDomainState {
    type V = DomainView;

    closed spec fn view(&self) -> DomainView {
        DomainView {
            session: self.tmux_session,
            tabs: self.gui_tabs.deep_view(),
            remotes: self.remote_panes@,
            queue: self.cmd_queue@,
        }
    }
}

/// The first tab, from `from` on, that shows a window; the number of tabs where none does.
pub open spec fn first_tab(tabs: Seq<TabView>, window_id: TmuxWindowId, from: int) -> int
    decreases tabs.len() - from,
{
    if 0 <= from < tabs.len() {
        if tabs[from].tmux_window_id == window_id {
            from
        } else {
            first_tab(tabs, window_id, from + 1)
        }
    } else {
        tabs.len() as int
    }
}

/// The tab that shows a window.
pub open spec fn tab_of(tabs: Seq<TabView>, window_id: TmuxWindowId) -> Option<TabView> {
    let i = first_tab(tabs, window_id, 0);
    if i < tabs.len() {
        Some(tabs[i])
    } else {
        None
    }
}

/// Whether a pane is shown in the tab of its window.
pub open spec fn is_attached(
    tabs: Seq<TabView>,
    window_id: TmuxWindowId,
    pane_id: TmuxPaneId,
) -> bool {
    tab_of(tabs, window_id) matches Some(tab) && tab.panes.contains(pane_id)
}

/// The tabs once a pane is shown. A window that has no tab yet gets the given one.
pub open spec fn with_pane(
    tabs: Seq<TabView>,
    window_id: TmuxWindowId,
    pane_id: TmuxPaneId,
    tab_id: TabId,
) -> Seq<TabView> {
    let i = first_tab(tabs, window_id, 0);
    if i < tabs.len() {
        tabs.update(i, TabView { panes: tabs[i].panes.insert(pane_id), ..tabs[i] })
    } else {
        tabs.push(
            TabView {
                tab_id,
                tmux_window_id: window_id,
                panes: Set::<TmuxPaneId>::empty().insert(pane_id),
            },
        )
    }
}

impl DomainView {
    /// No window has two tabs, and every pane that is shown is known.
    pub open spec fn wf(self) -> bool {
        &&& forall|i: int, j: int|
            0 <= i < self.tabs.len() && 0 <= j < self.tabs.len() && (#[trigger] self.tabs[i]).tmux_window_id
                == (#[trigger] self.tabs[j]).tmux_window_id ==> i == j
        &&& forall|i: int, id: TmuxPaneId|
            0 <= i < self.tabs.len() && #[trigger] self.tabs[i].panes.contains(id)
                ==> self.remotes.contains_key(id)
    }

    /// Whether a pane is shown in the tab of its window.
    pub open spec fn attached(self, pane: PaneItem) -> bool {
        is_attached(self.tabs, pane.window_id, pane.pane_id)
    }

    /// The session whose windows and panes are shown.
    pub open spec fn current_session(self) -> TmuxSessionId {
        match self.session {
            Some(session) => session,
            None => 0,
        }
    }
}

/// Why a pane cannot be attached.
#[derive(Debug, Clone, Copy, PartialEq, Eq, Structural)]
pub enum AttachError {
    /// It is attached already.
    AlreadyAttached,
}

impl AttachError {
    pub open spec fn words(self) -> Seq<char> {
        match self {
            AttachError::AlreadyAttached => "Tmux pane already attached"@,
        }
    }

    /// The error in words.
    pub fn message(&self) -> (words: String)
        ensures
            words@ == self.words(),
    {
        match self {
            AttachError::AlreadyAttached => "Tmux pane already attached".to_owned(),
        }
    }
}

pub proof fn lemma_first_tab(tabs: Seq<TabView>, window_id: TmuxWindowId, from: int)
    requires
        0 <= from <= tabs.len(),
    ensures
        from <= first_tab(tabs, window_id, from) <= tabs.len(),
        first_tab(tabs, window_id, from) < tabs.len()
            ==> tabs[first_tab(tabs, window_id, from)].tmux_window_id == window_id,
        forall|i: int|
            from <= i < first_tab(tabs, window_id, from) ==> (#[trigger] tabs[i]).tmux_window_id
                != window_id,
    decreases tabs.len() - from,
{
    if from < tabs.len() && tabs[from].tmux_window_id != window_id {
        lemma_first_tab(tabs, window_id, from + 1);
    }
}

/// The first tab of a window is the one that no earlier tab of the window stands before.
proof fn lemma_first_tab_is(tabs: Seq<TabView>, window_id: TmuxWindowId, from: int, at: int)
    requires
        0 <= from <= at < tabs.len(),
        tabs[at].tmux_window_id == window_id,
        forall|i: int| from <= i < at ==> (#[trigger] tabs[i]).tmux_window_id != window_id,
    ensures
        first_tab(tabs, window_id, from) == at,
    decreases at - from,
{
    if from < at {
        lemma_first_tab_is(tabs, window_id, from + 1, at);
    }
}

/// A pane that is shown is known.
pub proof fn lemma_attached_is_known(d: DomainView, pane: PaneItem)
    requires
        d.wf(),
        d.attached(pane),
    ensures
        d.remotes.contains_key(pane.pane_id),
{
    lemma_first_tab(d.tabs, pane.window_id, 0);
    let i = first_tab(d.tabs, pane.window_id, 0);
    assert(d.tabs[i].panes.contains(pane.pane_id));
}

/// Showing a pane shows that one and hides none.
pub proof fn law_attaching_adds_one(
    tabs: Seq<TabView>,
    window_id: TmuxWindowId,
    pane_id: TmuxPaneId,
    tab_id: TabId,
    other_window: TmuxWindowId,
    other_pane: TmuxPaneId,
)
    ensures
        is_attached(with_pane(tabs, window_id, pane_id, tab_id), other_window, other_pane) <==> (
        is_attached(tabs, other_window, other_pane) || (other_window == window_id && other_pane
            == pane_id)),
{
    let after = with_pane(tabs, window_id, pane_id, tab_id);
    lemma_first_tab(tabs, window_id, 0);
    lemma_first_tab(tabs, other_window, 0);
    lemma_first_tab(after, other_window, 0);
    let i = first_tab(tabs, window_id, 0);
    let j = first_tab(tabs, other_window, 0);
    assert forall|k: int| 0 <= k < tabs.len() implies (#[trigger] after[k]).tmux_window_id
        == tabs[k].tmux_window_id by {}
    if j < tabs.len() {
        lemma_first_tab_is(after, other_window, 0, j);
    } else if other_window == window_id {
        lemma_first_tab_is(after, other_window, 0, i);
    }
}

impl TmuxDomainState {
    /// Nothing is shown yet, and no command waits.
    pub fn new(tmux_session: Option<TmuxSessionId>) -> (domain: Self)
        ensures
            domain@ == (DomainView {
                session: tmux_session,
                tabs: seq![],
                remotes: Map::empty(),
                queue: seq![],
            }),
            domain@.wf(),
    {
        let domain = TmuxDomainState {
            tmux_session,
            gui_tabs: Vec::new(),
            remote_panes: HashMap::new(),
            cmd_queue: VecDeque::new(),
        };
        assert(domain.gui_tabs.deep_view() =~= Seq::<TabView>::empty());
        domain
    }

    /// Goes over to another session.
    pub fn set_session(&mut self, tmux_session: Option<TmuxSessionId>)
        ensures
            final(self)@ == (DomainView { session: tmux_session, ..old(self)@ }),
    {
        self.tmux_session = tmux_session;
    }

    /// Takes the command that has waited longest.
    pub fn next_command(&mut self) -> (command: Option<Command>)
        ensures
            match command {
                Some(c) => old(self)@.queue.len() > 0 && c == old(self)@.queue[0] && final(self)@
                    == (DomainView { queue: old(self)@.queue.skip(1), ..old(self)@ }),
                None => old(self)@.queue.len() == 0 && final(self)@ == old(self)@,
            },
    {
        let command = self.cmd_queue.pop_front();
        proof {
            let before = old(self)@.queue;
            if before.len() > 0 {
                assert(before.subrange(1, before.len() as int) == before.skip(1));
            }
        }
        command
    }

    /// Whether a pane of tmux is known.
    pub fn has_remote_pane(&self, pane_id: TmuxPaneId) -> (known: bool)
        ensures
            known == self@.remotes.contains_key(pane_id),
    {
        self.remote_panes.contains_key(&pane_id)
    }

    fn tab_index(&self, window_id: TmuxWindowId) -> (index: usize)
        ensures
            index == first_tab(self@.tabs, window_id, 0),
            index <= self.gui_tabs@.len(),
    {
        let mut i: usize = 0;
        while i < self.gui_tabs.len()
            invariant
                i <= self.gui_tabs@.len(),
                first_tab(self@.tabs, window_id, 0) == first_tab(self@.tabs, window_id, i as int),
            decreases self.gui_tabs.len() - i,
        {
            if self.gui_tabs[i].tmux_window_id == window_id {
                return i;
            }
            i = i + 1;
        }
        i
    }

    /// Whether a pane that tmux lists is shown.
    pub fn check_pane_attached(&self, target: &PaneItem) -> (attached: bool)
        ensures
            attached == self@.attached(*target),
    {
        let i = self.tab_index(target.window_id);
        if i < self.gui_tabs.len() {
            self.gui_tabs[i].panes.contains(&target.pane_id)
        } else {
            false
        }
    }

    /// Keeps in mind that a pane is shown, in the tab of its window or, where the window has none
    /// yet, in the given one.
    pub fn add_attached_pane(&mut self, target: &PaneItem, tab_id: &TabId) -> (done: Result<
        (),
        AttachError,
    >)
        ensures
            if old(self)@.attached(*target) {
                done == Err::<(), AttachError>(AttachError::AlreadyAttached) && final(self)@ == old(
                    self,
                )@
            } else {
                done == Ok::<(), AttachError>(()) && final(self)@ == (DomainView {
                    tabs: with_pane(
                        old(self)@.tabs,
                        target.window_id,
                        target.pane_id,
                        *tab_id,
                    ),
                    ..old(self)@
                })
            },
            old(self)@.wf() && old(self)@.remotes.contains_key(target.pane_id) ==> final(self)@.wf(),
    {
        let ghost before = self@.tabs;
        proof {
            lemma_first_tab(before, target.window_id, 0);
        }
        let i = self.tab_index(target.window_id);
        if i == self.gui_tabs.len() {
            self.gui_tabs.push(
                TmuxTab {
                    tab_id: *tab_id,
                    tmux_window_id: target.window_id,
                    panes: HashSet::new(),
                },
            );
        }
        if self.gui_tabs[i].panes.contains(&target.pane_id) {
            return Err(AttachError::AlreadyAttached);
        }
        self.gui_tabs[i].panes.insert(target.pane_id);
        assert(self@.tabs =~= with_pane(before, target.window_id, target.pane_id, *tab_id));
        Ok(())
    }
}

// ---------------------------------------------------------------------------
// Panes
// ---------------------------------------------------------------------------

/// The size of a terminal, in cells and in pixels.
#[derive(Debug, Clone, Copy, PartialEq, Eq, Structural)]
pub struct TerminalSize {
    pub rows: usize,
    pub cols: usize,
    pub pixel_width: usize,
    pub pixel_height: usize,
    pub dpi: u32,
}

/// A size in cells, with nothing known of the pixels.
pub open spec fn cells_size(width: u64, height: u64) -> TerminalSize {
    TerminalSize {
        rows: height as usize,
        cols: width as usize,
        pixel_width: 0,
        pixel_height: 0,
        dpi: 0,
    }
}

/// A size in cells, with nothing known of the pixels.
pub fn size_in_cells(width: u64, height: u64) -> (size: TerminalSize)
    ensures
        size == cells_size(width, height),
{
    TerminalSize {
        rows: height as usize,
        cols: width as usize,
        pixel_width: 0,
        pixel_height: 0,
        dpi: 0,
    }
}

/// What is kept of a pane that gets a pane to show it. The window decides the session and the
/// window, whatever the pane says of them.
pub open spec fn remote_pane(
    window: WindowView,
    pane: PaneItem,
    local_pane_id: PaneId,
) -> TmuxRemotePane {
    TmuxRemotePane {
        local_pane_id,
        session_id: window.session_id,
        window_id: window.window_id,
        pane_id: pane.pane_id,
        cursor_x: pane.cursor_x,
        cursor_y: pane.cursor_y,
        pane_width: pane.pane_width,
        pane_height: pane.pane_height,
        pane_left: pane.pane_left,
        pane_top: pane.pane_top,
    }
}

impl DomainView {
    /// The domain once a pane has got a pane to show it.
    pub open spec fn with_remote(
        self,
        window: WindowView,
        pane: PaneItem,
        local_pane_id: PaneId,
    ) -> DomainView {
        DomainView {
            remotes: self.remotes.insert(pane.pane_id, remote_pane(window, pane, local_pane_id)),
            ..self
        }
    }

    /// The domain with one more command that waits.
    pub open spec fn with_command(self, command: Command) -> DomainView {
        DomainView { queue: self.queue.push(command), ..self }
    }
}

impl TmuxDomainState {
    /// Keeps in mind which pane shows a pane of tmux, and says how large that must be.
    pub fn create_pane(&mut self, window: &WindowItem, pane: &PaneItem, local_pane_id: PaneId) -> (
    size: TerminalSize)
        ensures
            final(self)@ == old(self)@.with_remote(window.deep_view(), *pane, local_pane_id),
            size == cells_size(pane.pane_width, pane.pane_height),
            old(self)@.wf() ==> final(self)@.wf(),
    {
        self.remote_panes.insert(
            pane.pane_id,
            TmuxRemotePane {
                local_pane_id,
                session_id: window.session_id,
                window_id: window.window_id,
                pane_id: pane.pane_id,
                cursor_x: pane.cursor_x,
                cursor_y: pane.cursor_y,
                pane_width: pane.pane_width,
                pane_height: pane.pane_height,
                pane_left: pane.pane_left,
                pane_top: pane.pane_top,
            },
        );
        size_in_cells(pane.pane_width, pane.pane_height)
    }

    /// The pane that shows a pane of tmux.
    pub fn local_pane(&self, pane_id: TmuxPaneId) -> (local: Option<PaneId>)
        ensures
            local == (if self@.remotes.contains_key(pane_id) {
                Some(self@.remotes[pane_id].local_pane_id)
            } else {
                None
            }),
    {
        match self.remote_panes.get(&pane_id) {
            Some(remote) => Some(remote.local_pane_id),
            None => None,
        }
    }

    /// Lets a command wait to be sent.
    pub fn queue_command(&mut self, command: Command)
        ensures
            final(self)@ == old(self)@.with_command(command),
    {
        self.cmd_queue.push_back(command);
    }

    /// The session whose windows and panes are shown.
    pub fn current_session(&self) -> (session: TmuxSessionId)
        ensures
            session == self@.current_session(),
    {
        match self.tmux_session {
            Some(session) => session,
            None => 0,
        }
    }
}

// ---------------------------------------------------------------------------
// Listed panes
// ---------------------------------------------------------------------------

/// A pane that is brought up to date: where it is to become the active one of its tab, that comes
/// first; then what it shows is asked for.
#[derive(Debug, Clone, Copy, PartialEq, Eq)]
pub struct PaneSync {
    pub pane_id: TmuxPaneId,
    pub activate: Option<(TabId, PaneId)>,
}

impl DomainView {
    /// Whether a listed pane is brought up to date: it is shown, and belongs to the session.
    pub open spec fn is_synced(self, pane: PaneItem) -> bool {
        pane.session_id == self.current_session() && self.attached(pane)
    }

    pub open spec fn pane_sync(self, pane: PaneItem) -> PaneSync {
        PaneSync {
            pane_id: pane.pane_id,
            activate: if pane.pane_active {
                Some(
                    (
                        tab_of(self.tabs, pane.window_id)->0.tab_id,
                        self.remotes[pane.pane_id].local_pane_id,
                    ),
                )
            } else {
                None
            },
        }
    }

    /// What is done for the listed panes, in their order.
    pub open spec fn pane_syncs(self, panes: Seq<PaneItem>) -> Seq<PaneSync> {
        panes.filter(|p: PaneItem| self.is_synced(p)).map_values(|p: PaneItem| self.pane_sync(p))
    }
}

impl DomainView {
    /// The domain once what the listed panes show is asked for.
    pub open spec fn with_captures(self, panes: Seq<PaneItem>) -> DomainView {
        DomainView { queue: self.queue + captures(self.pane_syncs(panes)), ..self }
    }
}

/// The commands that ask for what panes show.
pub open spec fn captures(syncs: Seq<PaneSync>) -> Seq<Command> {
    syncs.map_values(|s: PaneSync| Command::CapturePane(CapturePane(s.pane_id)))
}

impl TmuxDomainState {
    /// Brings the panes that tmux lists up to date.
    pub fn sync_pane_state(&mut self, panes: &[PaneItem]) -> (syncs: Vec<PaneSync>)
        requires
            old(self)@.wf(),
        ensures
            syncs@ == old(self)@.pane_syncs(panes@),
            final(self)@ == old(self)@.with_captures(panes@),
            final(self)@.wf(),
    {
        let ghost before = self@;
        let mut syncs: Vec<PaneSync> = Vec::new();
        let session = self.current_session();
        let mut i: usize = 0;
        assert(before.queue + captures(syncs@) =~= before.queue);
        assert(before.pane_syncs(panes@.take(0)) =~= seq![]) by {
            reveal(Seq::filter);
        }
        while i < panes.len()
            invariant
                i <= panes@.len(),
                before.wf(),
                session == before.current_session(),
                syncs@ == before.pane_syncs(panes@.take(i as int)),
                self@ == (DomainView { queue: before.queue + captures(syncs@), ..before }),
            decreases panes.len() - i,
        {
            let pane = panes[i];
            proof {
                lemma_pane_syncs(before, panes@.take(i as int), pane);
                assert(panes@.take(i + 1) =~= panes@.take(i as int).push(pane));
            }
            if pane.session_id == session && self.check_pane_attached(&pane) {
                let ghost so_far = syncs@;
                let mut activate: Option<(TabId, PaneId)> = None;
                if pane.pane_active {
                    proof {
                        lemma_first_tab(before.tabs, pane.window_id, 0);
                    }
                    let tab = self.tab_index(pane.window_id);
                    let tab_id = self.gui_tabs[tab].tab_id;
                    match self.local_pane(pane.pane_id) {
                        Some(local) => {
                            activate = Some((tab_id, local));
                        },
                        None => {},
                    }
                }
                syncs.push(PaneSync { pane_id: pane.pane_id, activate });
                self.queue_command(Command::CapturePane(CapturePane(pane.pane_id)));
                assert(captures(syncs@) =~= captures(so_far).push(
                    Command::CapturePane(CapturePane(pane.pane_id)),
                ));
                assert(self@.queue =~= before.queue + captures(syncs@));
            }
            i = i + 1;
        }
        assert(panes@.take(panes@.len() as int) =~= panes@);
        syncs
    }
}

proof fn lemma_pane_syncs(d: DomainView, panes: Seq<PaneItem>, pane: PaneItem)
    ensures
        d.pane_syncs(panes.push(pane)) == (if d.is_synced(pane) {
            d.pane_syncs(panes).push(d.pane_sync(pane))
        } else {
            d.pane_syncs(panes)
        }),
{
    let chosen = |p: PaneItem| d.is_synced(p);
    reveal(Seq::filter);
    assert(panes.push(pane).drop_last() =~= panes);
    assert(d.pane_syncs(panes.push(pane)) =~= if d.is_synced(pane) {
        d.pane_syncs(panes).push(d.pane_sync(pane))
    } else {
        d.pane_syncs(panes)
    });
}

/// What a pane shows is asked for if the pane is listed, belongs to the session and is shown, and
/// only then.
pub proof fn law_synced_panes_are_captured(d: DomainView, panes: Seq<PaneItem>, pane_id: TmuxPaneId)
    ensures
        captures(d.pane_syncs(panes)).contains(Command::CapturePane(CapturePane(pane_id))) <==> exists|
            i: int,
        |
            0 <= i < panes.len() && d.is_synced(#[trigger] panes[i]) && panes[i].pane_id == pane_id,
    decreases panes.len(),
{
    let command = Command::CapturePane(CapturePane(pane_id));
    if panes.len() == 0 {
        reveal(Seq::filter);
    } else {
        let front = panes.drop_last();
        law_synced_panes_are_captured(d, front, pane_id);
        lemma_pane_syncs(d, front, panes.last());
        assert(front.push(panes.last()) =~= panes);
        let before = captures(d.pane_syncs(front));
        let after = captures(d.pane_syncs(panes));
        if d.is_synced(panes.last()) {
            assert(after =~= before.push(
                Command::CapturePane(CapturePane(panes.last().pane_id)),
            ));
        }
        if before.contains(command) {
            let i = choose|i: int|
                0 <= i < front.len() && d.is_synced(#[trigger] front[i]) && front[i].pane_id
                    == pane_id;
            assert(panes[i] == front[i]);
            let k = choose|k: int| 0 <= k < before.len() && before[k] == command;
            assert(after[k] == command);
        } else if after.contains(command) {
            let k = choose|k: int| 0 <= k < after.len() && after[k] == command;
            assert(k < before.len() ==> before[k] == command);
            assert(panes[panes.len() - 1].pane_id == pane_id);
        } else if d.is_synced(panes.last()) && panes.last().pane_id == pane_id {
            assert(after[after.len() - 1] == command);
        }
        assert forall|i: int|
            0 <= i < panes.len() && d.is_synced(#[trigger] panes[i]) && panes[i].pane_id
                == pane_id implies after.contains(command) by {
            if i < front.len() {
                assert(front[i] == panes[i]);
            }
        }
    }
}

} // verus!
