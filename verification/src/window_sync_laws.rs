//! What holds of every showing of listed windows, whatever comes of its actions.

use crate::commands::{Command, ListAllPanes};
use crate::domain::{
    first_tab, is_attached, law_attaching_adds_one, lemma_first_tab, with_pane, DomainView, TabId,
};
use crate::items::{LayoutView, PaneItem, TmuxPaneId, TmuxSessionId, TmuxWindowId, WindowView};
use crate::layout_tree::{
    holds, law_divided_window_has_divisions, law_steps_name_the_panes, lists, well_formed,
    window_steps,
};
use crate::listing_laws::TreeWindow;
use crate::window_sync::{
    lemma_next_window, next_window, start, Phase, SyncAction, SyncError, SyncReply, SyncView,
};
use vstd::prelude::*;

verus! {

// ---------------------------------------------------------------------------
// A whole run
// ---------------------------------------------------------------------------

/// Where a run stands: what is waited for, what is known, and what was to be done last.
pub struct Run {
    pub sync: SyncView,
    pub domain: DomainView,
    pub action: SyncAction,
}

impl Run {
    /// The run one reply further.
    pub open spec fn next(self, reply: SyncReply) -> Run {
        let (sync, domain, action) = self.sync.step(self.domain, reply);
        Run { sync, domain, action }
    }

    /// What holds between two replies.
    pub open spec fn sound(self) -> bool {
        self.sync.wf() && self.sync.known(self.domain) && self.domain.wf()
    }
}

/// The beginning of a run.
pub open spec fn begun(windows: Seq<WindowView>, domain: DomainView) -> Run {
    Run {
        sync: start(windows, domain.current_session()),
        domain,
        action: SyncAction::OpenWindow,
    }
}

/// The run after some replies.
pub open spec fn after(first: Run, replies: Seq<SyncReply>) -> Run
    decreases replies.len(),
{
    if replies.len() == 0 {
        first
    } else {
        after(first, replies.drop_last()).next(replies.last())
    }
}

/// Whether every reply is of the kind that was waited for.
pub open spec fn fitting(first: Run, replies: Seq<SyncReply>) -> bool
    decreases replies.len(),
{
    replies.len() == 0 || (fitting(first, replies.drop_last()) && after(
        first,
        replies.drop_last(),
    ).sync.fits(replies.last()))
}

// ---------------------------------------------------------------------------
// What stays
// ---------------------------------------------------------------------------

/// Whether every pane that is shown in the one domain is shown in the other.
pub open spec fn shows_all_of(later: DomainView, earlier: DomainView) -> bool {
    forall|window_id: TmuxWindowId, pane_id: TmuxPaneId| #[trigger]
        is_attached(earlier.tabs, window_id, pane_id) ==> is_attached(
            later.tabs,
            window_id,
            pane_id,
        )
}

/// Where a reply lets the panes of a window be gone on with: from where.
pub open spec fn onward(st: SyncView, reply: SyncReply) -> Option<SyncView> {
    match (st.phase, reply) {
        (Phase::Tab, SyncReply::Name(tab)) => Some(st.in_tab(tab)),
        (Phase::SplitIndexed, SyncReply::Name(place)) => Some(st.past_pane(place)),
        (Phase::Splitting, SyncReply::Place(Some(place))) => Some(
            st.past_pane((place + 1) as usize),
        ),
        (Phase::Finding, SyncReply::Place(Some(place))) => Some(st.past_pane(place)),
        _ => None,
    }
}

/// Where a reply lets the next window be gone on with: from where, and from which window on.
pub open spec fn entering(st: SyncView, reply: SyncReply) -> Option<(SyncView, int)> {
    match (st.phase, reply) {
        (Phase::Gui, SyncReply::Place(Some(gui_window))) => Some(
            (SyncView { gui_window, ..st }, 0),
        ),
        (Phase::TabAdded, SyncReply::Flag(true)) => Some(
            (SyncView { shown_session: st.at_window().session_id, ..st }, st.window + 1),
        ),
        _ => None,
    }
}

/// Going on with the panes of a window neither leaves it nor changes what is to be shown.
pub proof fn lemma_proceed_stays(st: SyncView, d: DomainView)
    ensures
        ({
            let next = st.proceed(d).0;
            &&& next.windows == st.windows
            &&& next.session == st.session
            &&& next.gui_window == st.gui_window
            &&& next.window == st.window
            &&& next.tab == st.tab
            &&& next.active_tab == st.active_tab
            &&& next.shown_session == st.shown_session
            &&& next.phase is SinglePane || next.phase is Finding || next.phase is SplitPane
                || next.phase is TabAdded
        }),
        !(st.proceed(d).1 is Finish) && !(st.proceed(d).1 is CreateTab),
        !(st.proceed(d).1 is Fail) && !(st.proceed(d).1 is Abort),
    decreases st.at_window().layout.len() - st.layout,
{
    if 0 <= st.layout < st.at_window().layout.len() && !(st.at_layout() is SinglePane) && st.pane
        >= st.at_layout().panes().len() {
        lemma_proceed_stays(SyncView { layout: st.layout + 1, pane: 0, ..st }, d);
    }
}

/// One reply: no pane that is shown ceases to be shown, and the one pane that may begin to be
/// shown is the pane at hand; no pane that is known is forgotten; the session stays; and a command
/// is left waiting only at the end, the one that lists the panes.
pub proof fn law_reply_keeps_what_is_shown(run: Run, reply: SyncReply)
    ensures
        shows_all_of(run.next(reply).domain, run.domain),
        forall|window_id: TmuxWindowId, pane_id: TmuxPaneId| #[trigger]
            is_attached(run.next(reply).domain.tabs, window_id, pane_id) ==> is_attached(
                run.domain.tabs,
                window_id,
                pane_id,
            ) || ((run.sync.phase is SingleAssigned || run.sync.phase is SplitPane) && window_id
                == run.sync.at_pane().window_id && pane_id == run.sync.at_pane().pane_id),
        run.domain.remotes.dom().subset_of(run.next(reply).domain.remotes.dom()),
        run.next(reply).domain.session == run.domain.session,
        run.next(reply).domain.queue == if run.next(reply).action is Finish {
            run.domain.queue.push(Command::ListAllPanes(ListAllPanes))
        } else {
            run.domain.queue
        },
        run.next(reply).sync.windows == run.sync.windows,
        run.next(reply).sync.session == run.sync.session,
        run.next(reply).action is Finish ==> (run.sync.phase is Titled || run.sync.phase is Activated)
            && run.next(reply).sync.phase is Over,
{
    let st = run.sync;
    let d = run.domain;
    let pane = st.at_pane();
    if let Some(next) = onward(st, reply) {
        lemma_proceed_stays(next, d);
    }
    let shown = with_pane(d.tabs, pane.window_id, pane.pane_id, st.tab);
    assert forall|window_id: TmuxWindowId, pane_id: TmuxPaneId|
        is_attached(shown, window_id, pane_id) <==> (is_attached(d.tabs, window_id, pane_id) || (
        window_id == pane.window_id && pane_id == pane.pane_id)) by {
        law_attaching_adds_one(
            d.tabs,
            pane.window_id,
            pane.pane_id,
            st.tab,
            window_id,
            pane_id,
        );
    }
}

// ---------------------------------------------------------------------------
// What gets shown
// ---------------------------------------------------------------------------

/// Whether a layout step is reached: a single pane is the last step.
pub open spec fn reached(layout: Seq<LayoutView>, l: int) -> bool {
    forall|k: int| 0 <= k < l ==> !(#[trigger] layout[k] is SinglePane)
}

/// Whether the first panes of a layout step, so many of them, are shown.
pub open spec fn step_shown(layout: LayoutView, count: int, d: DomainView) -> bool {
    forall|p: int| 0 <= p < count ==> d.attached(#[trigger] layout.panes()[p])
}

/// Whether every pane of a window is shown.
pub open spec fn window_shown(w: WindowView, d: DomainView) -> bool {
    forall|l: int|
        0 <= l < w.layout.len() && reached(w.layout, l) ==> step_shown(
            #[trigger] w.layout[l],
            w.layout[l].panes().len() as int,
            d,
        )
}

/// Whether every window of the session, among the first so many, is shown.
pub open spec fn windows_shown(
    windows: Seq<WindowView>,
    session: TmuxSessionId,
    count: int,
    d: DomainView,
) -> bool {
    forall|i: int|
        0 <= i < count && (#[trigger] windows[i]).session_id == session ==> window_shown(
            windows[i],
            d,
        )
}

/// Whether the panes of the window at hand that come before the one at hand are shown.
pub open spec fn passed(st: SyncView, d: DomainView) -> bool {
    let layout = st.at_window().layout;
    &&& 0 <= st.layout <= layout.len()
    &&& reached(layout, st.layout)
    &&& forall|l: int|
        0 <= l < st.layout ==> step_shown(
            #[trigger] layout[l],
            layout[l].panes().len() as int,
            d,
        )
    &&& st.layout < layout.len() ==> step_shown(layout[st.layout], st.pane, d)
}

/// What is shown between two replies: the windows before the one at hand, and its panes before the
/// one at hand.
pub open spec fn settled(st: SyncView, d: DomainView) -> bool {
    match st.phase {
        Phase::Gui | Phase::Over => true,
        Phase::Titled | Phase::TabFound | Phase::Activated => windows_shown(
            st.windows,
            st.session,
            st.windows.len() as int,
            d,
        ),
        Phase::Tab => windows_shown(st.windows, st.session, st.window, d),
        Phase::TabAdded => windows_shown(st.windows, st.session, st.window, d) && window_shown(
            st.at_window(),
            d,
        ),
        Phase::SinglePane | Phase::SingleAssigned | Phase::SplitPane => windows_shown(
            st.windows,
            st.session,
            st.window,
            d,
        ) && passed(st, d),
        _ => windows_shown(st.windows, st.session, st.window, d) && passed(st, d) && d.attached(
            st.at_pane(),
        ),
    }
}

/// What is shown stays shown where a domain shows all of another.
proof fn lemma_shown_later(st: SyncView, count: int, later: DomainView, earlier: DomainView)
    requires
        shows_all_of(later, earlier),
    ensures
        windows_shown(st.windows, st.session, count, earlier) ==> windows_shown(
            st.windows,
            st.session,
            count,
            later,
        ),
        passed(st, earlier) ==> passed(st, later),
{
    assert forall|layout: LayoutView, n: int| #[trigger] step_shown(layout, n, earlier) implies
        step_shown(layout, n, later) by {
        assert forall|p: int| 0 <= p < n implies later.attached(#[trigger] layout.panes()[p]) by {
            assert(earlier.attached(layout.panes()[p]));
        }
    }
    assert forall|w: WindowView| #[trigger] window_shown(w, earlier) implies window_shown(
        w,
        later,
    ) by {}
}

/// Going on with the panes of a window leaves them shown.
proof fn lemma_proceed_settles(st: SyncView, d: DomainView)
    requires
        st.in_window(),
        windows_shown(st.windows, st.session, st.window, d),
        passed(st, d),
        0 <= st.pane,
    ensures
        settled(st.proceed(d).0, d),
    decreases st.at_window().layout.len() - st.layout,
{
    let layout = st.at_window().layout;
    if st.layout < layout.len() {
        if !(st.at_layout() is SinglePane) && st.pane >= st.at_layout().panes().len() {
            let next = SyncView { layout: st.layout + 1, pane: 0, ..st };
            assert(step_shown(layout[st.layout], layout[st.layout].panes().len() as int, d));
            assert(next.at_window() == st.at_window());
            assert(passed(next, d));
            lemma_proceed_settles(next, d);
        }
    }
}

/// The panes before the one that is gone on with are shown.
proof fn lemma_onward_passes(st: SyncView, reply: SyncReply, d: DomainView)
    requires
        st.wf(),
        settled(st, d),
        onward(st, reply) is Some,
    ensures
        passed(onward(st, reply)->0, d),
        onward(st, reply)->0.pane >= 0,
{
    let next = onward(st, reply)->0;
    assert(next.at_window() == st.at_window());
    if !(st.phase is Tab) {
        let layout = st.at_layout();
        assert forall|p: int| 0 <= p < next.pane implies d.attached(
            #[trigger] layout.panes()[p],
        ) by {
            if p == st.pane {
                assert(layout.panes()[p] == st.at_pane());
            }
        }
        assert(step_shown(next.at_layout(), next.pane, d));
    }
}

/// Going on with the next window leaves those before it shown.
proof fn lemma_enter_settles(st: SyncView, from: int, d: DomainView)
    requires
        0 <= from <= st.windows.len(),
        windows_shown(st.windows, st.session, from, d),
    ensures
        settled(st.enter(from).0, d),
{
    lemma_next_window(st.windows, st.session, from);
}

/// Between two replies, the windows before the one at hand are shown, and so are its panes before
/// the one at hand; and when all is done, every pane of every window of the session is shown.
pub proof fn law_reply_leaves_windows_shown(run: Run, reply: SyncReply)
    requires
        run.sound(),
        settled(run.sync, run.domain),
        run.sync.fits(reply),
    ensures
        settled(run.next(reply).sync, run.next(reply).domain),
        run.next(reply).action is Finish ==> windows_shown(
            run.sync.windows,
            run.sync.session,
            run.sync.windows.len() as int,
            run.next(reply).domain,
        ),
{
    let st = run.sync;
    let d = run.domain;
    let d1 = run.next(reply).domain;
    law_reply_keeps_what_is_shown(run, reply);
    lemma_shown_later(st, st.window, d1, d);
    lemma_shown_later(st, st.windows.len() as int, d1, d);
    let pane = st.at_pane();
    law_attaching_adds_one(
        d.tabs,
        pane.window_id,
        pane.pane_id,
        st.tab,
        pane.window_id,
        pane.pane_id,
    );
    if let Some(next) = onward(st, reply) {
        lemma_onward_passes(st, reply, d);
        lemma_proceed_settles(next, d);
    }
    match (st.phase, reply) {
        (Phase::SingleAdded, _) => {
            let layout = st.at_window().layout;
            assert(step_shown(layout[st.layout], 1, d));
            assert forall|l: int| 0 <= l < layout.len() && reached(layout, l) implies step_shown(
                #[trigger] layout[l],
                layout[l].panes().len() as int,
                d,
            ) by {
                assert(l > st.layout ==> !(layout[st.layout] is SinglePane));
            }
        },
        _ => {},
    }
    if let Some((next, from)) = entering(st, reply) {
        assert(windows_shown(st.windows, st.session, from, d));
        lemma_enter_settles(next, from, d);
    }
}

// ---------------------------------------------------------------------------
// Whole runs
// ---------------------------------------------------------------------------

proof fn lemma_proceed_is_well_formed(st: SyncView, d: DomainView)
    requires
        st.in_window(),
        0 <= st.layout,
        0 <= st.pane,
    ensures
        st.proceed(d).0.wf(),
    decreases st.at_window().layout.len() - st.layout,
{
    if st.layout < st.at_window().layout.len() && !(st.at_layout() is SinglePane) && st.pane
        >= st.at_layout().panes().len() {
        lemma_proceed_is_well_formed(SyncView { layout: st.layout + 1, pane: 0, ..st }, d);
    }
}

/// A domain stays well-formed where a pane that it knows gets shown.
proof fn lemma_attached_well_formed(d: DomainView, pane: PaneItem, tab: TabId)
    requires
        d.wf(),
        d.remotes.contains_key(pane.pane_id),
    ensures
        d.with_attached(pane, tab).wf(),
{
    lemma_first_tab(d.tabs, pane.window_id, 0);
    let i = first_tab(d.tabs, pane.window_id, 0);
    let after = d.with_attached(pane, tab);
    assert forall|k: int, id: TmuxPaneId|
        0 <= k < after.tabs.len() && #[trigger] after.tabs[k].panes.contains(
            id,
        ) implies after.remotes.contains_key(id) by {
        if k < d.tabs.len() && id != pane.pane_id {
            assert(d.tabs[k].panes.contains(id));
        }
    }
    assert forall|k: int| 0 <= k < d.tabs.len() implies (#[trigger] after.tabs[k]).tmux_window_id
        == d.tabs[k].tmux_window_id by {}
}

/// What holds between two replies holds after the next one: in particular no window has two tabs,
/// and every pane that is shown is known.
pub proof fn law_reply_keeps_sound(run: Run, reply: SyncReply)
    requires
        run.sound(),
        run.sync.fits(reply),
    ensures
        run.next(reply).sound(),
{
    let st = run.sync;
    let d = run.domain;
    if let Some(next) = onward(st, reply) {
        lemma_proceed_is_well_formed(next, d);
        lemma_proceed_stays(next, d);
    }
    match (st.phase, reply) {
        (Phase::SingleAssigned, _) => {
            lemma_attached_well_formed(d, st.at_pane(), st.tab);
        },
        (Phase::SplitPane, SyncReply::Name(local)) => {
            let d1 = d.with_remote(st.at_window(), st.at_pane(), local);
            assert(d1.wf());
            lemma_attached_well_formed(d1, st.at_pane(), st.tab);
        },
        _ => {},
    }
    if let Some((_, from)) = entering(st, reply) {
        lemma_next_window(st.windows, st.session, from);
    }
}

/// Whether the window at hand, if there is one, belongs to the session.
pub open spec fn in_session(st: SyncView) -> bool {
    match st.phase {
        Phase::Gui | Phase::Titled | Phase::TabFound | Phase::Activated | Phase::Over => true,
        _ => st.at_window().session_id == st.session,
    }
}

/// Only windows of the session are dealt with.
pub proof fn law_reply_stays_in_session(run: Run, reply: SyncReply)
    requires
        run.sound(),
        in_session(run.sync),
        run.sync.fits(reply),
    ensures
        in_session(run.next(reply).sync),
{
    let st = run.sync;
    let d = run.domain;
    if let Some(next) = onward(st, reply) {
        lemma_proceed_stays(next, d);
    }
    if let Some((_, from)) = entering(st, reply) {
        lemma_next_window(st.windows, st.session, from);
    }
}

/// What holds after any replies.
pub proof fn lemma_run(windows: Seq<WindowView>, d: DomainView, replies: Seq<SyncReply>)
    requires
        d.wf(),
        fitting(begun(windows, d), replies),
    ensures
        ({
            let run = after(begun(windows, d), replies);
            &&& run.sound()
            &&& settled(run.sync, run.domain)
            &&& in_session(run.sync)
            &&& run.sync.windows == windows
            &&& run.sync.session == d.current_session()
            &&& shows_all_of(run.domain, d)
            &&& d.remotes.dom().subset_of(run.domain.remotes.dom())
            &&& run.domain.session == d.session
            &&& run.domain.queue == if run.action is Finish {
                d.queue.push(Command::ListAllPanes(ListAllPanes))
            } else {
                d.queue
            }
            &&& run.action is Finish ==> run.sync.phase is Over && windows_shown(
                windows,
                d.current_session(),
                windows.len() as int,
                run.domain,
            )
        }),
    decreases replies.len(),
{
    let first = begun(windows, d);
    if replies.len() > 0 {
        lemma_run(windows, d, replies.drop_last());
        let before = after(first, replies.drop_last());
        let reply = replies.last();
        law_reply_keeps_sound(before, reply);
        law_reply_stays_in_session(before, reply);
        law_reply_keeps_what_is_shown(before, reply);
        law_reply_leaves_windows_shown(before, reply);
    }
}

/// However the actions turn out: once all is done, every pane of every listed window of the
/// session is shown.
pub proof fn law_finished_run_shows_the_session(
    windows: Seq<WindowView>,
    d: DomainView,
    replies: Seq<SyncReply>,
)
    requires
        d.wf(),
        fitting(begun(windows, d), replies),
        after(begun(windows, d), replies).action is Finish,
    ensures
        windows_shown(
            windows,
            d.current_session(),
            windows.len() as int,
            after(begun(windows, d), replies).domain,
        ),
{
    lemma_run(windows, d, replies);
}

/// However the actions turn out, and however far they have come: no window has two tabs and every
/// pane that is shown is known; what was shown is shown, what was known is known; and the command
/// that lists the panes is left waiting if all is done, and only then.
pub proof fn law_run_keeps_the_domain(
    windows: Seq<WindowView>,
    d: DomainView,
    replies: Seq<SyncReply>,
)
    requires
        d.wf(),
        fitting(begun(windows, d), replies),
    ensures
        ({
            let run = after(begun(windows, d), replies);
            &&& run.sound()
            &&& shows_all_of(run.domain, d)
            &&& d.remotes.dom().subset_of(run.domain.remotes.dom())
            &&& run.domain.session == d.session
            &&& run.domain.queue == if run.action is Finish {
                d.queue.push(Command::ListAllPanes(ListAllPanes))
            } else {
                d.queue
            }
        }),
{
    lemma_run(windows, d, replies);
}

/// Whether a pane stands in a listed window of the session.
pub open spec fn is_listed(
    windows: Seq<WindowView>,
    session: TmuxSessionId,
    window_id: TmuxWindowId,
    pane_id: TmuxPaneId,
) -> bool {
    exists|i: int, l: int, p: int|
        0 <= i < windows.len() && windows[i].session_id == session && 0 <= l
            < windows[i].layout.len() && 0 <= p < windows[i].layout[l].panes().len()
            && #[trigger] windows[i].layout[l].panes()[p].window_id == window_id
            && windows[i].layout[l].panes()[p].pane_id == pane_id
}

/// However the actions turn out: a pane is shown only if it was shown before or stands in a listed
/// window of the session.
pub proof fn law_run_shows_nothing_else(
    windows: Seq<WindowView>,
    d: DomainView,
    replies: Seq<SyncReply>,
    window_id: TmuxWindowId,
    pane_id: TmuxPaneId,
)
    requires
        d.wf(),
        fitting(begun(windows, d), replies),
        is_attached(
            after(begun(windows, d), replies).domain.tabs,
            window_id,
            pane_id,
        ),
    ensures
        is_attached(d.tabs, window_id, pane_id) || is_listed(
            windows,
            d.current_session(),
            window_id,
            pane_id,
        ),
    decreases replies.len(),
{
    if replies.len() > 0 {
        let first = begun(windows, d);
        let before = after(first, replies.drop_last());
        lemma_run(windows, d, replies.drop_last());
        law_reply_keeps_what_is_shown(before, replies.last());
        if is_attached(before.domain.tabs, window_id, pane_id) {
            law_run_shows_nothing_else(
                windows,
                d,
                replies.drop_last(),
                window_id,
                pane_id,
            );
        } else {
            let st = before.sync;
            assert(windows[st.window].layout[st.layout].panes()[st.pane].window_id == window_id);
        }
    }
}

/// The windows that tmux lists, each a tree of cells: once all is done, every pane that stands in a
/// window of the session is shown in the tab of that window.
pub proof fn law_finished_run_shows_every_cell(
    trees: Seq<TreeWindow>,
    d: DomainView,
    replies: Seq<SyncReply>,
    i: int,
    id: TmuxPaneId,
)
    requires
        d.wf(),
        0 <= i < trees.len(),
        trees[i].session_id == d.current_session(),
        well_formed(trees[i].cell),
        holds(trees[i].cell, id),
        ({
            let windows = trees.map_values(|w: TreeWindow| w.item());
            &&& fitting(begun(windows, d), replies)
            &&& after(begun(windows, d), replies).action is Finish
        }),
    ensures
        is_attached(
            after(
                begun(trees.map_values(|w: TreeWindow| w.item()), d),
                replies,
            ).domain.tabs,
            trees[i].window_id,
            id,
        ),
{
    let windows = trees.map_values(|w: TreeWindow| w.item());
    let tree = trees[i];
    let shown = after(begun(windows, d), replies).domain;
    law_finished_run_shows_the_session(windows, d, replies);
    let item = windows[i];
    assert(window_shown(item, shown));
    law_steps_name_the_panes(tree.cell, id);
    let bare = window_steps(tree.cell);
    let l = choose|l: int| 0 <= l < bare.len() && lists((#[trigger] bare[l]).panes(), id);
    let p = choose|p: int|
        0 <= p < bare[l].panes().len() && (#[trigger] bare[l].panes()[p]).pane_id == id;
    assert(item.layout[l] == bare[l].placed(tree.session_id, tree.window_id));
    if tree.cell is Split {
        law_divided_window_has_divisions(tree.cell);
        assert forall|k: int| 0 <= k < l implies !(#[trigger] item.layout[k] is SinglePane) by {
            assert(item.layout[k] == bare[k].placed(tree.session_id, tree.window_id));
        }
    }
    assert(reached(item.layout, l));
    assert(step_shown(item.layout[l], item.layout[l].panes().len() as int, shown));
    let pane = item.layout[l].panes()[p];
    assert(pane.pane_id == id && pane.window_id == tree.window_id);
}

/// Once all is done, a pane that stands in a window of the session is brought up to date as soon as
/// tmux lists it as a pane of that window and of the session.
pub proof fn law_finished_run_lets_panes_be_synced(
    trees: Seq<TreeWindow>,
    d: DomainView,
    replies: Seq<SyncReply>,
    i: int,
    pane: PaneItem,
)
    requires
        d.wf(),
        0 <= i < trees.len(),
        trees[i].session_id == d.current_session(),
        well_formed(trees[i].cell),
        holds(trees[i].cell, pane.pane_id),
        pane.session_id == trees[i].session_id,
        pane.window_id == trees[i].window_id,
        ({
            let windows = trees.map_values(|w: TreeWindow| w.item());
            &&& fitting(begun(windows, d), replies)
            &&& after(begun(windows, d), replies).action is Finish
        }),
    ensures
        after(
            begun(trees.map_values(|w: TreeWindow| w.item()), d),
            replies,
        ).domain.is_synced(pane),
{
    let windows = trees.map_values(|w: TreeWindow| w.item());
    law_finished_run_shows_every_cell(trees, d, replies, i, pane.pane_id);
    law_run_keeps_the_domain(windows, d, replies);
}

// ---------------------------------------------------------------------------
// What is refused, and what is there already
// ---------------------------------------------------------------------------

/// A run is given up only where something is refused: there is no window to show it in, a pane is
/// shown already that should be new or is missing where it should be, a pane cannot be split off, a
/// tab cannot be put into the window or is not found there.
pub proof fn law_run_is_given_up_only_when_refused(run: Run, reply: SyncReply)
    requires
        run.sound(),
        run.sync.fits(reply),
    ensures
        ({
            let st = run.sync;
            let none = reply == SyncReply::Place(None);
            let action = run.next(reply).action;
            let no_gui = SyncAction::Fail(SyncError::NoGui);
            let twice = SyncAction::Fail(SyncError::AlreadyAttached);
            let missing = SyncAction::Fail(SyncError::InvalidPane(st.local));
            let lost = SyncAction::Fail(
                SyncError::TabNotInWindow { tab_id: st.active_tab->0, gui_window: st.gui_window },
            );
            &&& action is Abort <==> (st.phase is Splitting && none) || (st.phase is TabAdded
                && reply == SyncReply::Flag(false))
            &&& action == no_gui <==> st.phase is Gui && none
            &&& action == twice <==> (st.phase is SingleAssigned || st.phase is SplitPane)
                && run.domain.attached(st.at_pane())
            &&& action == missing <==> st.phase is Finding && none
            &&& action == lost <==> st.phase is TabFound && none
            &&& action is Fail ==> action == no_gui || action == twice || action == missing
                || action == lost
        }),
{
    if let Some(next) = onward(run.sync, reply) {
        lemma_proceed_stays(next, run.domain);
    }
}

/// A pane of a row or a column that is shown already is looked for, not made again.
pub proof fn law_shown_pane_is_not_made_again(run: Run, reply: SyncReply)
    requires
        run.sound(),
        run.sync.fits(reply),
    ensures
        ({
            let next = run.next(reply);
            &&& next.sync.phase is SplitPane ==> !next.domain.attached(next.sync.at_pane())
            &&& next.sync.phase is Finding ==> next.domain.attached(next.sync.at_pane())
                && next.action == (SyncAction::FindPane {
                tab_id: next.sync.tab,
                local_pane_id: next.domain.remotes[next.sync.at_pane().pane_id].local_pane_id,
            })
        }),
{
    if let Some(next) = onward(run.sync, reply) {
        lemma_proceed_looks(next, run.domain);
    }
}

proof fn lemma_proceed_looks(st: SyncView, d: DomainView)
    ensures
        ({
            let (next, action) = st.proceed(d);
            &&& next.phase is SplitPane ==> !d.attached(next.at_pane())
            &&& next.phase is Finding ==> d.attached(next.at_pane()) && action
                == (SyncAction::FindPane {
                tab_id: next.tab,
                local_pane_id: d.remotes[next.at_pane().pane_id].local_pane_id,
            })
        }),
    decreases st.at_window().layout.len() - st.layout,
{
    if 0 <= st.layout < st.at_window().layout.len() && !(st.at_layout() is SinglePane) && st.pane
        >= st.at_layout().panes().len() {
        lemma_proceed_looks(SyncView { layout: st.layout + 1, pane: 0, ..st }, d);
    }
}

// ---------------------------------------------------------------------------
// The end of a run
// ---------------------------------------------------------------------------

/// At most so many replies are needed for the layout steps from `from` on: five for each pane.
pub open spec fn layout_work(layout: Seq<LayoutView>, from: int) -> nat
    decreases layout.len() - from,
{
    if 0 <= from < layout.len() {
        5 * layout[from].panes().len() + layout_work(layout, from + 1)
    } else {
        0
    }
}

/// At most so many replies are needed for the windows of the session from `from` on: those for
/// their panes, and two for each window.
pub open spec fn windows_work(windows: Seq<WindowView>, session: TmuxSessionId, from: int) -> nat
    decreases windows.len() - from,
{
    if 0 <= from < windows.len() {
        (if windows[from].session_id == session {
            2 + layout_work(windows[from].layout, 0)
        } else {
            0
        }) + windows_work(windows, session, from + 1)
    } else {
        0
    }
}

/// At most so many replies are needed for the panes of the window at hand, from the one at hand on.
pub open spec fn panes_work(st: SyncView) -> int {
    let layout = st.at_window().layout;
    if 0 <= st.layout < layout.len() {
        5 * (layout[st.layout].panes().len() - st.pane) + layout_work(layout, st.layout + 1)
    } else {
        0
    }
}

/// At most so many replies are still needed.
pub open spec fn work(st: SyncView) -> int {
    let later: int = windows_work(st.windows, st.session, st.window + 1) + 3int;
    match st.phase {
        Phase::Over => 0,
        Phase::Activated => 1,
        Phase::TabFound => 2,
        Phase::Titled => 3,
        Phase::Gui => windows_work(st.windows, st.session, 0) + 4int,
        Phase::TabAdded => later + 1,
        Phase::Tab => later + 2 + layout_work(st.at_window().layout, 0),
        Phase::SplitPane | Phase::SinglePane => later + 1 + panes_work(st),
        Phase::SplitAdded => later + panes_work(st),
        Phase::SplitActive | Phase::SingleAssigned => later - 1 + panes_work(st),
        Phase::SplitAssigned | Phase::SingleAdded => later - 2 + panes_work(st),
        Phase::SplitIndexed | Phase::Splitting | Phase::Finding => later - 3 + panes_work(st),
    }
}

proof fn lemma_proceed_work(st: SyncView, d: DomainView)
    requires
        st.in_window(),
        0 <= st.layout,
        0 <= st.pane,
        st.layout < st.at_window().layout.len() ==> st.pane <= st.at_layout().panes().len() && (
        st.at_layout() is SinglePane ==> st.pane == 0),
    ensures
        work(st.proceed(d).0) <= windows_work(st.windows, st.session, st.window + 1) + 4
            + panes_work(st),
    decreases st.at_window().layout.len() - st.layout,
{
    let next = SyncView { layout: st.layout + 1, pane: 0, ..st };
    assert(next.at_window() == st.at_window());
    if st.layout < st.at_window().layout.len() && !(st.at_layout() is SinglePane) && st.pane
        >= st.at_layout().panes().len() {
        lemma_proceed_work(next, d);
        assert(panes_work(next) == layout_work(st.at_window().layout, st.layout + 1));
    }
}

proof fn lemma_skipped_work(windows: Seq<WindowView>, session: TmuxSessionId, from: int)
    requires
        0 <= from <= windows.len(),
    ensures
        windows_work(windows, session, next_window(windows, session, from)) == windows_work(
            windows,
            session,
            from,
        ),
    decreases windows.len() - from,
{
    if from < windows.len() && windows[from].session_id != session {
        lemma_skipped_work(windows, session, from + 1);
    }
}

/// However an action turns out, less is left to do after its reply than before.
pub proof fn law_reply_leaves_less_to_do(run: Run, reply: SyncReply)
    requires
        run.sound(),
        in_session(run.sync),
        run.sync.fits(reply),
    ensures
        0 <= work(run.next(reply).sync) < work(run.sync),
{
    let st = run.sync;
    let d = run.domain;
    law_reply_keeps_sound(run, reply);
    law_reply_stays_in_session(run, reply);
    if let Some(next) = onward(st, reply) {
        assert(next.at_window() == st.at_window());
        lemma_proceed_work(next, d);
        if st.phase is Tab {
            assert(panes_work(next) == layout_work(st.at_window().layout, 0));
        }
    }
    if let Some((_, from)) = entering(st, reply) {
        lemma_next_window(st.windows, st.session, from);
        lemma_skipped_work(st.windows, st.session, from);
    }
}

proof fn lemma_run_work(
    windows: Seq<WindowView>,
    d: DomainView,
    replies: Seq<SyncReply>,
)
    requires
        d.wf(),
        fitting(begun(windows, d), replies),
    ensures
        0 <= work(after(begun(windows, d), replies).sync) <= windows_work(
            windows,
            d.current_session(),
            0,
        ) + 4 - replies.len(),
    decreases replies.len(),
{
    if replies.len() > 0 {
        lemma_run(windows, d, replies.drop_last());
        lemma_run_work(windows, d, replies.drop_last());
        law_reply_leaves_less_to_do(
            after(begun(windows, d), replies.drop_last()),
            replies.last(),
        );
    }
}

/// However the actions turn out, a run ends: it takes at most five replies for each pane, two for
/// each window of the session, and four more.
pub proof fn law_run_ends(
    windows: Seq<WindowView>,
    d: DomainView,
    replies: Seq<SyncReply>,
)
    requires
        d.wf(),
        fitting(begun(windows, d), replies),
    ensures
        replies.len() <= windows_work(windows, d.current_session(), 0) + 4,
{
    lemma_run_work(windows, d, replies);
}

} // verus!
