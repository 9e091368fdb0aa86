//! What a whole showing of listed windows does to the multiplexer, from its first action to its
//! last.

use crate::domain::{cells_size, DomainView, PaneId, TabId};
use crate::items::{TmuxSessionId, WindowView};
use crate::window_sync::{
    lemma_next_window, next_window, Phase, SyncAction, SyncError, SyncReply, SyncView, WindowId,
};
use crate::window_sync_laws::{
    after, begun, entering, fitting, law_reply_keeps_what_is_shown, lemma_proceed_stays,
    lemma_run, onward, reached, step_shown, window_shown, windows_shown, Run,
};
use vstd::prelude::*;

verus! {

// ---------------------------------------------------------------------------
// The windows of the session
// ---------------------------------------------------------------------------

/// The windows of a session, in order.
pub open spec fn of_session(windows: Seq<WindowView>, session: TmuxSessionId) -> Seq<WindowView> {
    windows.filter(|w: WindowView| w.session_id == session)
}

/// One window more.
pub proof fn lemma_one_more(windows: Seq<WindowView>, session: TmuxSessionId, i: int)
    requires
        0 <= i < windows.len(),
    ensures
        of_session(windows.take(i + 1), session) == (if windows[i].session_id == session {
            of_session(windows.take(i), session).push(windows[i])
        } else {
            of_session(windows.take(i), session)
        }),
{
    reveal(Seq::filter);
    assert(windows.take(i + 1).drop_last() =~= windows.take(i));
    assert(windows.take(i + 1).last() == windows[i]);
}

/// None yet.
proof fn lemma_none_yet(windows: Seq<WindowView>, session: TmuxSessionId)
    ensures
        of_session(windows.take(0), session) == Seq::<WindowView>::empty(),
{
    reveal(Seq::filter);
    assert(windows.take(0) =~= seq![]);
}

/// Windows that are passed over do not count.
pub proof fn lemma_passed_over(windows: Seq<WindowView>, session: TmuxSessionId, from: int)
    requires
        0 <= from <= windows.len(),
    ensures
        of_session(windows.take(next_window(windows, session, from)), session) == of_session(
            windows.take(from),
            session,
        ),
    decreases windows.len() - from,
{
    if from < windows.len() && windows[from].session_id != session {
        lemma_one_more(windows, session, from);
        lemma_passed_over(windows, session, from + 1);
    }
}

/// A window of the session stands among the windows of the session behind those that come before
/// it.
pub proof fn lemma_stands_behind(windows: Seq<WindowView>, session: TmuxSessionId, i: int, n: int)
    requires
        0 <= i < n <= windows.len(),
        windows[i].session_id == session,
    ensures
        of_session(windows.take(i), session).len() < of_session(windows.take(n), session).len(),
        of_session(windows.take(n), session)[of_session(windows.take(i), session).len() as int]
            == windows[i],
    decreases n - i,
{
    lemma_one_more(windows, session, n - 1);
    if i < n - 1 {
        lemma_stands_behind(windows, session, i, n - 1);
    }
}

/// All of them belong to the session.
proof fn lemma_all_of_session(windows: Seq<WindowView>, session: TmuxSessionId, n: int)
    requires
        0 <= n <= windows.len(),
    ensures
        forall|k: int|
            0 <= k < of_session(windows.take(n), session).len() ==> (#[trigger] of_session(
                windows.take(n),
                session,
            )[k]).session_id == session,
    decreases n,
{
    if n == 0 {
        lemma_none_yet(windows, session);
    } else {
        lemma_one_more(windows, session, n - 1);
        lemma_all_of_session(windows, session, n - 1);
    }
}

// ---------------------------------------------------------------------------
// Windows of other sessions
// ---------------------------------------------------------------------------

/// Whether a window is at hand.
pub open spec fn at_some_window(phase: Phase) -> bool {
    match phase {
        Phase::Gui | Phase::Titled | Phase::TabFound | Phase::Activated | Phase::Over => false,
        _ => true,
    }
}

/// Whether the one showing is the other one without the windows of other sessions.
pub open spec fn same_but_for_others(all: SyncView, kept: SyncView) -> bool {
    &&& kept == (SyncView { windows: kept.windows, window: kept.window, ..all })
    &&& kept.windows == of_session(all.windows, all.session)
    &&& at_some_window(all.phase) ==> {
        &&& all.in_window()
        &&& all.at_window().session_id == all.session
        &&& kept.window == of_session(all.windows.take(all.window), all.session).len()
    }
}

proof fn lemma_same_window(all: SyncView, kept: SyncView)
    requires
        same_but_for_others(all, kept),
        at_some_window(all.phase),
    ensures
        kept.in_window(),
        kept.at_window() == all.at_window(),
{
    let n = all.windows.len() as int;
    assert(all.windows.take(n) =~= all.windows);
    lemma_stands_behind(all.windows, all.session, all.window, n);
}

proof fn lemma_same_proceed(all: SyncView, kept: SyncView, d: DomainView)
    requires
        kept == (SyncView { windows: kept.windows, window: kept.window, ..all }),
        kept.at_window() == all.at_window(),
    ensures
        kept.proceed(d).0 == (SyncView {
            windows: kept.windows,
            window: kept.window,
            ..all.proceed(d).0
        }),
        kept.proceed(d).1 == all.proceed(d).1,
    decreases all.at_window().layout.len() - all.layout,
{
    if 0 <= all.layout < all.at_window().layout.len() && !(all.at_layout() is SinglePane)
        && all.pane >= all.at_layout().panes().len() {
        lemma_same_proceed(
            SyncView { layout: all.layout + 1, pane: 0, ..all },
            SyncView { layout: kept.layout + 1, pane: 0, ..kept },
            d,
        );
    }
}

proof fn lemma_same_enter(all: SyncView, kept: SyncView, from: int)
    requires
        kept == (SyncView { windows: kept.windows, window: kept.window, ..all }),
        kept.windows == of_session(all.windows, all.session),
        0 <= from <= all.windows.len(),
    ensures
        ({
            let i = of_session(all.windows.take(from), all.session).len() as int;
            &&& same_but_for_others(all.enter(from).0, kept.enter(i).0)
            &&& all.enter(from).1 == kept.enter(i).1
        }),
{
    let n = all.windows.len() as int;
    let i = of_session(all.windows.take(from), all.session).len() as int;
    let w = next_window(all.windows, all.session, from);
    assert(all.windows.take(n) =~= all.windows);
    lemma_next_window(all.windows, all.session, from);
    lemma_passed_over(all.windows, all.session, from);
    lemma_all_of_session(all.windows, all.session, n);
    if w < n {
        lemma_stands_behind(all.windows, all.session, w, n);
        assert(kept.windows[i].session_id == all.session);
    } else {
        assert(i == kept.windows.len());
    }
}

/// One reply: the windows of other sessions make no difference to what comes of it.
proof fn lemma_same_step(all: SyncView, kept: SyncView, d: DomainView, reply: SyncReply)
    requires
        same_but_for_others(all, kept),
    ensures
        same_but_for_others(all.step(d, reply).0, kept.step(d, reply).0),
        all.step(d, reply).1 == kept.step(d, reply).1,
        all.step(d, reply).2 == kept.step(d, reply).2,
{
    if at_some_window(all.phase) {
        lemma_same_window(all, kept);
    }
    if let Some(next) = onward(all, reply) {
        let other = onward(kept, reply)->0;
        lemma_same_proceed(next, other, d);
        lemma_proceed_stays(next, d);
    }
    if let Some((next, from)) = entering(all, reply) {
        let (other, at) = entering(kept, reply)->0;
        if all.phase is Gui {
            lemma_none_yet(all.windows, all.session);
        } else {
            lemma_one_more(all.windows, all.session, all.window);
        }
        lemma_same_enter(next, other, from);
    }
}

/// Windows of other sessions leave no trace: without them the same is to be done after the same
/// replies, the same is waited for, and the same is known.
pub proof fn law_other_sessions_leave_no_trace(
    windows: Seq<WindowView>,
    d: DomainView,
    replies: Seq<SyncReply>,
)
    ensures
        ({
            let all = after(begun(windows, d), replies);
            let kept = after(begun(of_session(windows, d.current_session()), d), replies);
            &&& all.action == kept.action
            &&& all.domain == kept.domain
            &&& all.sync.phase == kept.sync.phase
        }),
        fitting(begun(windows, d), replies) == fitting(
            begun(of_session(windows, d.current_session()), d),
            replies,
        ),
    decreases replies.len(),
{
    lemma_same_run(windows, d, replies);
    if replies.len() > 0 {
        law_other_sessions_leave_no_trace(windows, d, replies.drop_last());
        lemma_same_run(windows, d, replies.drop_last());
    }
}

proof fn lemma_same_run(windows: Seq<WindowView>, d: DomainView, replies: Seq<SyncReply>)
    ensures
        ({
            let all = after(begun(windows, d), replies);
            let kept = after(begun(of_session(windows, d.current_session()), d), replies);
            &&& same_but_for_others(all.sync, kept.sync)
            &&& all.domain == kept.domain
            &&& all.action == kept.action
        }),
    decreases replies.len(),
{
    if replies.len() > 0 {
        lemma_same_run(windows, d, replies.drop_last());
        let all = after(begun(windows, d), replies.drop_last());
        let kept = after(
            begun(of_session(windows, d.current_session()), d),
            replies.drop_last(),
        );
        lemma_same_step(all.sync, kept.sync, all.domain, replies.last());
    }
}

// ---------------------------------------------------------------------------
// Tabs, title and active tab
// ---------------------------------------------------------------------------

/// All that was to be done in a run so far, in order.
pub open spec fn actions(first: Run, replies: Seq<SyncReply>) -> Seq<SyncAction>
    decreases replies.len(),
{
    if replies.len() == 0 {
        seq![first.action]
    } else {
        actions(first, replies.drop_last()).push(after(first, replies).action)
    }
}

/// The making of tabs.
pub open spec fn makings(actions: Seq<SyncAction>) -> Seq<SyncAction> {
    actions.filter(|a: SyncAction| a is CreateTab)
}

/// The putting of tabs into a window.
pub open spec fn addings(actions: Seq<SyncAction>) -> Seq<SyncAction> {
    actions.filter(|a: SyncAction| a is AddTab)
}

/// The names of the tabs that were made in a run, in order.
pub open spec fn tab_names(first: Run, replies: Seq<SyncReply>) -> Seq<TabId>
    decreases replies.len(),
{
    if replies.len() == 0 {
        seq![]
    } else {
        let before = tab_names(first, replies.drop_last());
        match (after(first, replies.drop_last()).action, replies.last()) {
            (SyncAction::CreateTab { .. }, SyncReply::Name(tab)) => before.push(tab),
            _ => before,
        }
    }
}

/// The making of the tab for a window: as large as the window.
pub open spec fn making(w: WindowView) -> SyncAction {
    SyncAction::CreateTab {
        size: cells_size(w.window_width, w.window_height),
        window_id: w.window_id,
    }
}

pub open spec fn all_made(windows: Seq<WindowView>) -> Seq<SyncAction> {
    windows.map_values(|w: WindowView| making(w))
}

/// The putting of tabs into a window, one after the other.
pub open spec fn all_added(tabs: Seq<TabId>, gui_window: WindowId) -> Seq<SyncAction> {
    tabs.map_values(|tab_id: TabId| SyncAction::AddTab { tab_id, gui_window })
}

/// The tab of the last active window, where the first windows have these tabs.
pub open spec fn last_active(windows: Seq<WindowView>, tabs: Seq<TabId>) -> Option<TabId>
    decreases tabs.len(),
{
    if tabs.len() == 0 {
        None
    } else if windows[tabs.len() - 1].window_active {
        Some(tabs.last())
    } else {
        last_active(windows, tabs.drop_last())
    }
}

/// The session in the title: 0 where none of its windows is shown.
pub open spec fn title_session(shown: Seq<WindowView>, session: TmuxSessionId) -> TmuxSessionId {
    if shown.len() > 0 {
        session
    } else {
        0
    }
}

/// How many windows were gone on with by then.
pub open spec fn windows_entered(st: SyncView) -> int {
    if at_some_window(st.phase) {
        st.window + 1
    } else if st.phase is Gui {
        0
    } else {
        st.windows.len() as int
    }
}

/// Where a run stands as to tabs, title and active tab, unless it was given up.
pub open spec fn told(first: Run, replies: Seq<SyncReply>) -> bool {
    let run = after(first, replies);
    let st = run.sync;
    let shown = of_session(st.windows.take(windows_entered(st)), st.session);
    let done = actions(first, replies);
    let names = tab_names(first, replies);
    let title = SyncAction::ShowTitle {
        gui_window: st.gui_window,
        session_id: title_session(shown, st.session),
    };
    &&& run.action is CreateTab <==> st.phase is Tab
    &&& makings(done) == all_made(shown)
    &&& st.active_tab == last_active(shown, names)
    &&& st.phase is Gui <==> replies.len() == 0
    &&& replies.len() > 0 ==> replies[0] == SyncReply::Place(Some(st.gui_window))
    &&& match st.phase {
        Phase::Gui => names.len() == 0 && addings(done).len() == 0 && st.shown_session == 0,
        Phase::Tab => {
            &&& names.len() + 1 == shown.len()
            &&& addings(done) == all_added(names, st.gui_window)
            &&& st.shown_session == (if names.len() > 0 {
                st.session
            } else {
                0
            })
        },
        Phase::TabAdded => {
            &&& names.len() == shown.len()
            &&& names.len() > 0
            &&& addings(done) == all_added(names, st.gui_window)
        },
        Phase::Titled | Phase::TabFound | Phase::Activated | Phase::Over => {
            &&& names.len() == shown.len()
            &&& addings(done) == all_added(names, st.gui_window)
            &&& st.shown_session == title_session(shown, st.session)
            &&& done.contains(title)
            &&& st.phase is Titled ==> run.action == title
            &&& st.phase is TabFound ==> st.active_tab is Some && run.action
                == (SyncAction::FindTab {
                gui_window: st.gui_window,
                tab_id: st.active_tab->0,
            })
            &&& st.phase is Activated ==> st.active_tab is Some && replies.last() is Place
                && replies.last()->Place_0 is Some && run.action == (SyncAction::ActivateTab {
                gui_window: st.gui_window,
                index: replies.last()->Place_0->0,
            }) && after(first, replies.drop_last()).action == (SyncAction::FindTab {
                gui_window: st.gui_window,
                tab_id: st.active_tab->0,
            })
        },
        _ => {
            &&& names.len() == shown.len()
            &&& names.len() > 0
            &&& names.last() == st.tab
            &&& addings(done) == all_added(names.drop_last(), st.gui_window)
        },
    }
}

proof fn lemma_one_more_action(done: Seq<SyncAction>, action: SyncAction)
    ensures
        makings(done.push(action)) == (if action is CreateTab {
            makings(done).push(action)
        } else {
            makings(done)
        }),
        addings(done.push(action)) == (if action is AddTab {
            addings(done).push(action)
        } else {
            addings(done)
        }),
        done.push(action).contains(action),
        forall|a: SyncAction| done.contains(a) ==> #[trigger] done.push(action).contains(a),
{
    reveal(Seq::filter);
    assert(done.push(action).drop_last() =~= done);
    assert(done.push(action)[done.len() as int] == action);
    assert forall|a: SyncAction| done.contains(a) implies #[trigger] done.push(action).contains(
        a,
    ) by {
        let k = choose|k: int| 0 <= k < done.len() && done[k] == a;
        assert(done.push(action)[k] == a);
    }
}

/// The tab of the last active window does not depend on windows behind those that have a tab.
proof fn lemma_last_active(windows: Seq<WindowView>, more: Seq<WindowView>, tabs: Seq<TabId>)
    requires
        tabs.len() <= windows.len() <= more.len(),
        forall|k: int| 0 <= k < windows.len() ==> windows[k] == #[trigger] more[k],
    ensures
        last_active(windows, tabs) == last_active(more, tabs),
    decreases tabs.len(),
{
    if tabs.len() > 0 {
        assert(windows[tabs.len() - 1] == more[tabs.len() - 1]);
        lemma_last_active(windows, more, tabs.drop_last());
    }
}

/// Where a run stands as to tabs, title and active tab.
pub proof fn lemma_told(windows: Seq<WindowView>, d: DomainView, replies: Seq<SyncReply>)
    requires
        d.wf(),
        fitting(begun(windows, d), replies),
        ({
            let run = after(begun(windows, d), replies);
            run.sync.phase is Over ==> run.action is Finish
        }),
    ensures
        told(begun(windows, d), replies),
    decreases replies.len(),
{
    let first = begun(windows, d);
    let session = d.current_session();
    let run = after(first, replies);
    lemma_run(windows, d, replies);
    if replies.len() == 0 {
        lemma_none_yet(windows, session);
        lemma_one_more_action(seq![], first.action);
        reveal(Seq::filter);
        assert(seq![first.action] =~= Seq::<SyncAction>::empty().push(first.action));
        assert(makings(seq![first.action]) =~= all_made(of_session(windows.take(0), session)));
    } else {
        let front = replies.drop_last();
        let reply = replies.last();
        let before = after(first, front);
        lemma_run(windows, d, front);
        lemma_told(windows, d, front);
        let st = before.sync;
        let next = run.sync;
        let done = actions(first, front);
        lemma_one_more_action(done, run.action);
        law_reply_keeps_what_is_shown(before, reply);
        let old_shown = of_session(windows.take(windows_entered(st)), session);
        let shown = of_session(windows.take(windows_entered(next)), session);
        let old_names = tab_names(first, front);
        let names = tab_names(first, replies);
        assert(replies[0] == if front.len() > 0 {
            front[0]
        } else {
            reply
        });
        if let Some(on) = onward(st, reply) {
            lemma_proceed_stays(on, before.domain);
            lemma_proceed_adds(on, before.domain);
            if st.phase is Tab {
                assert(names.drop_last() =~= old_names);
                lemma_one_more(windows, session, st.window);
                assert(shown[names.len() - 1] == st.at_window());
            }
            assert(all_added(names.drop_last(), next.gui_window).push(
                SyncAction::AddTab { tab_id: names.last(), gui_window: next.gui_window },
            ) =~= all_added(names, next.gui_window));
        } else if st.phase is SingleAdded {
            assert(all_added(names.drop_last(), next.gui_window).push(
                SyncAction::AddTab { tab_id: names.last(), gui_window: next.gui_window },
            ) =~= all_added(names, next.gui_window));
        } else if let Some((on, from)) = entering(st, reply) {
            lemma_next_window(windows, session, from);
            lemma_passed_over(windows, session, from);
            let w = next_window(windows, session, from);
            assert(of_session(windows.take(from), session) == old_shown);
            if w < windows.len() {
                lemma_one_more(windows, session, w);
                assert(shown == old_shown.push(windows[w]));
                assert(all_made(shown) =~= all_made(old_shown).push(making(windows[w])));
                lemma_last_active(old_shown, shown, names);
            } else {
                assert(shown == old_shown);
            }
            if st.phase is Gui {
                lemma_none_yet(windows, session);
                assert(addings(actions(first, replies)) =~= all_added(names, next.gui_window));
            }
        } else {
            assert(shown == old_shown);
            assert(names == old_names);
        }
    }
}

proof fn lemma_proceed_adds(st: SyncView, d: DomainView)
    ensures
        st.proceed(d).1 is AddTab <==> st.proceed(d).0.phase is TabAdded,
        st.proceed(d).1 is AddTab ==> st.proceed(d).1 == (SyncAction::AddTab {
            tab_id: st.tab,
            gui_window: st.gui_window,
        }),
    decreases st.at_window().layout.len() - st.layout,
{
    if 0 <= st.layout < st.at_window().layout.len() && !(st.at_layout() is SinglePane) && st.pane
        >= st.at_layout().panes().len() {
        lemma_proceed_adds(SyncView { layout: st.layout + 1, pane: 0, ..st }, d);
    }
}

/// However the actions turn out: once all is done, a tab was made for each listed window of the
/// session, one for each, as large as the window and in their order, and for no other; and each
/// tab that was made was put into the window that was opened, in the same order, and nothing else
/// was.
pub proof fn law_finished_run_has_a_tab_for_each_window(
    windows: Seq<WindowView>,
    d: DomainView,
    replies: Seq<SyncReply>,
)
    requires
        d.wf(),
        fitting(begun(windows, d), replies),
        after(begun(windows, d), replies).action is Finish,
    ensures
        ({
            let first = begun(windows, d);
            let done = actions(first, replies);
            let names = tab_names(first, replies);
            let shown = of_session(windows, d.current_session());
            &&& makings(done) == all_made(shown)
            &&& names.len() == shown.len()
            &&& replies[0] is Place && replies[0]->Place_0 is Some
            &&& addings(done) == all_added(names, replies[0]->Place_0->0)
        }),
{
    lemma_run(windows, d, replies);
    lemma_told(windows, d, replies);
    assert(windows.take(windows.len() as int) =~= windows);
}

/// However the actions turn out: once all is done, the window that was opened was given the title
/// of the session, or of session 0 where no window of the session is listed; and the tab of the
/// last active window of the session, if there is one, was looked for in that window and made its
/// active tab, unless that window was gone.
pub proof fn law_finished_run_shows_title_and_active_tab(
    windows: Seq<WindowView>,
    d: DomainView,
    replies: Seq<SyncReply>,
)
    requires
        d.wf(),
        fitting(begun(windows, d), replies),
        after(begun(windows, d), replies).action is Finish,
    ensures
        ({
            let first = begun(windows, d);
            let shown = of_session(windows, d.current_session());
            let active = last_active(shown, tab_names(first, replies));
            let gui_window = replies[0]->Place_0->0;
            let title = SyncAction::ShowTitle {
                gui_window,
                session_id: title_session(shown, d.current_session()),
            };
            let front = replies.drop_last();
            &&& replies[0] is Place && replies[0]->Place_0 is Some
            &&& actions(first, replies).contains(title)
            &&& match after(first, front).action {
                SyncAction::ActivateTab { gui_window: at, index } => {
                    &&& at == gui_window
                    &&& active is Some
                    &&& front.last() == SyncReply::Place(Some(index))
                    &&& after(first, front.drop_last()).action == (SyncAction::FindTab {
                        gui_window,
                        tab_id: active->0,
                    })
                },
                last => last == title && (active is None || replies.last() == SyncReply::Flag(
                    false,
                )),
            }
        }),
{
    let first = begun(windows, d);
    let front = replies.drop_last();
    lemma_run(windows, d, replies);
    lemma_told(windows, d, replies);
    assert(windows.take(windows.len() as int) =~= windows);
    let before = after(first, front);
    law_reply_keeps_what_is_shown(before, replies.last());
    lemma_run(windows, d, front);
    lemma_told(windows, d, front);
}

// ---------------------------------------------------------------------------
// Showing the same again
// ---------------------------------------------------------------------------

/// Whether an action puts a pane into a tab.
pub open spec fn puts(action: SyncAction, tab: TabId, local: PaneId) -> bool {
    match action {
        SyncAction::AssignPane { tab_id, local_pane_id } => tab_id == tab && local_pane_id
            == local,
        SyncAction::SplitPane { tab_id, local_pane_id, .. } => tab_id == tab && local_pane_id
            == local,
        _ => false,
    }
}

/// Whether a pane was to be put into a tab.
pub open spec fn was_put(actions: Seq<SyncAction>, tab: TabId, local: PaneId) -> bool {
    exists|k: int| 0 <= k < actions.len() && puts(#[trigger] actions[k], tab, local)
}

/// Whether a pane is found in a tab only where it was put there. The tabs of a run are new, so
/// nothing else is in them.
pub open spec fn faithful(first: Run, replies: Seq<SyncReply>) -> bool
    decreases replies.len(),
{
    replies.len() == 0 || (faithful(first, replies.drop_last()) && match after(
        first,
        replies.drop_last(),
    ).action {
        SyncAction::FindPane { tab_id, local_pane_id } => replies.last() == SyncReply::Place(None)
            || was_put(actions(first, replies.drop_last()), tab_id, local_pane_id),
        _ => true,
    })
}

/// Whether nothing of a window is to be shown.
pub open spec fn vacant(w: WindowView) -> bool {
    forall|l: int|
        0 <= l < w.layout.len() && reached(w.layout, l) ==> (#[trigger] w.layout[l]).panes().len()
            == 0
}

/// Whether nothing of the windows of the session, among the first so many, is to be shown.
pub open spec fn all_vacant(windows: Seq<WindowView>, session: TmuxSessionId, count: int) -> bool {
    forall|i: int|
        0 <= i < count && (#[trigger] windows[i]).session_id == session ==> vacant(windows[i])
}

/// Where a run stands that shows again what is shown.
pub open spec fn again(first: Run, replies: Seq<SyncReply>) -> bool {
    let run = after(first, replies);
    let st = run.sync;
    let untouched = forall|tab: TabId, local: PaneId|
        !#[trigger] was_put(actions(first, replies), tab, local);
    &&& run.domain.tabs == first.domain.tabs
    &&& match st.phase {
        Phase::Gui => untouched,
        Phase::Tab => untouched && all_vacant(st.windows, st.session, st.window),
        Phase::TabAdded => untouched && all_vacant(st.windows, st.session, st.window) && vacant(
            st.at_window(),
        ),
        Phase::SinglePane => untouched && run.domain.attached(st.at_pane()),
        Phase::Finding => untouched && run.domain.attached(st.at_pane()) && run.action
            is FindPane,
        Phase::SingleAssigned => run.domain.attached(st.at_pane()),
        Phase::Over => replies.len() > 0 && given_up_again(
            after(first, replies.drop_last()),
            replies.last(),
        ),
        _ => false,
    }
}

/// Whether a run that shows again what is shown is given up with a reply, and why: a single pane is
/// shown already, a pane of a row or a column is not in the new tab, there is no window to show it
/// in, or a tab is refused.
pub open spec fn given_up_again(run: Run, reply: SyncReply) -> bool {
    let action = run.next(reply).action;
    match run.sync.phase {
        Phase::SingleAssigned => action == SyncAction::Fail(SyncError::AlreadyAttached),
        Phase::Finding => reply == SyncReply::Place(None) && action == SyncAction::Fail(
            SyncError::InvalidPane(run.sync.local),
        ),
        Phase::Gui => reply == SyncReply::Place(None) && action == SyncAction::Fail(
            SyncError::NoGui,
        ),
        Phase::TabAdded => reply == SyncReply::Flag(false) && action is Abort,
        _ => false,
    }
}

proof fn lemma_one_more_put(done: Seq<SyncAction>, action: SyncAction)
    requires
        forall|tab: TabId, local: PaneId| !#[trigger] was_put(done, tab, local),
        !(action is AssignPane) && !(action is SplitPane),
    ensures
        forall|tab: TabId, local: PaneId| !#[trigger] was_put(done.push(action), tab, local),
{
    assert forall|tab: TabId, local: PaneId| !#[trigger] was_put(done.push(action), tab, local) by {
        let more = done.push(action);
        if was_put(more, tab, local) {
            let k = choose|k: int| 0 <= k < more.len() && puts(#[trigger] more[k], tab, local);
            assert(k < done.len());
            assert(puts(done[k], tab, local));
            assert(was_put(done, tab, local));
        }
    }
}

/// Going on with the panes of a window that is shown: the first of them is there already.
proof fn lemma_proceed_again(st: SyncView, d: DomainView)
    requires
        st.in_window(),
        window_shown(st.at_window(), d),
        0 <= st.layout <= st.at_window().layout.len(),
        st.pane == 0,
        reached(st.at_window().layout, st.layout),
        forall|l: int|
            0 <= l < st.layout ==> (#[trigger] st.at_window().layout[l]).panes().len() == 0,
    ensures
        ({
            let (next, action) = st.proceed(d);
            &&& !(action is AssignPane) && !(action is SplitPane)
            &&& match next.phase {
                Phase::SinglePane => d.attached(next.at_pane()),
                Phase::Finding => d.attached(next.at_pane()) && action is FindPane,
                Phase::TabAdded => vacant(st.at_window()),
                _ => false,
            }
        }),
    decreases st.at_window().layout.len() - st.layout,
{
    let layout = st.at_window().layout;
    if st.layout < layout.len() {
        let step = layout[st.layout];
        assert(step_shown(step, step.panes().len() as int, d));
        if step is SinglePane {
            assert(d.attached(step.panes()[0]));
        } else if step.panes().len() == 0 {
            let next = SyncView { layout: st.layout + 1, pane: 0, ..st };
            assert(next.at_window() == st.at_window());
            lemma_proceed_again(next, d);
        } else {
            assert(d.attached(step.panes()[0]));
        }
    }
}

proof fn lemma_again(windows: Seq<WindowView>, d: DomainView, replies: Seq<SyncReply>)
    requires
        d.wf(),
        windows_shown(windows, d.current_session(), windows.len() as int, d),
        !all_vacant(windows, d.current_session(), windows.len() as int),
        fitting(begun(windows, d), replies),
        faithful(begun(windows, d), replies),
    ensures
        again(begun(windows, d), replies),
    decreases replies.len(),
{
    let first = begun(windows, d);
    let session = d.current_session();
    if replies.len() == 0 {
        assert forall|tab: TabId, local: PaneId| !#[trigger] was_put(
            seq![first.action],
            tab,
            local,
        ) by {}
    } else {
        let front = replies.drop_last();
        let reply = replies.last();
        lemma_run(windows, d, front);
        lemma_again(windows, d, front);
        let before = after(first, front);
        let st = before.sync;
        let run = after(first, replies);
        let done = actions(first, front);
        if st.phase is Tab {
            let on = st.in_tab(reply->Name_0);
            assert(on.at_window() == st.at_window());
            assert(window_shown(st.at_window(), d));
            assert(window_shown(st.at_window(), before.domain)) by {
                lemma_shown_by_tabs(st.at_window(), d, before.domain);
            }
            lemma_proceed_again(on, before.domain);
            lemma_proceed_stays(on, before.domain);
            lemma_one_more_put(done, run.action);
        } else if let Some((on, from)) = entering(st, reply) {
            lemma_next_window(windows, session, from);
            assert(all_vacant(windows, session, from));
            assert(all_vacant(windows, session, run.sync.window));
            lemma_one_more_put(done, run.action);
        } else if st.phase is Finding {
            assert(before.action is FindPane);
            assert(reply == SyncReply::Place(None));
        }
    }
}

proof fn lemma_shown_by_tabs(w: WindowView, d: DomainView, other: DomainView)
    requires
        window_shown(w, d),
        other.tabs == d.tabs,
    ensures
        window_shown(w, other),
{
    assert forall|l: int| 0 <= l < w.layout.len() && reached(w.layout, l) implies step_shown(
        #[trigger] w.layout[l],
        w.layout[l].panes().len() as int,
        other,
    ) by {
        let step = w.layout[l];
        assert(step_shown(step, step.panes().len() as int, d));
        assert forall|p: int| 0 <= p < step.panes().len() implies other.attached(
            #[trigger] step.panes()[p],
        ) by {
            assert(d.attached(step.panes()[p]));
        }
    }
}

/// Showing the same windows again, once all of them is shown, is never done, provided there is a
/// pane to show; and once it is over, it was given up for one of four reasons: a single pane is
/// shown already, a pane of a row or a column is not in the new tab, there is no window to show it
/// in, or a tab is refused.
pub proof fn law_showing_again_never_finishes(
    windows: Seq<WindowView>,
    d: DomainView,
    replies: Seq<SyncReply>,
    later_replies: Seq<SyncReply>,
)
    requires
        d.wf(),
        fitting(begun(windows, d), replies),
        after(begun(windows, d), replies).action is Finish,
        !all_vacant(windows, d.current_session(), windows.len() as int),
        ({
            let second = begun(windows, after(begun(windows, d), replies).domain);
            &&& fitting(second, later_replies)
            &&& faithful(second, later_replies)
        }),
    ensures
        ({
            let second = begun(windows, after(begun(windows, d), replies).domain);
            let run = after(second, later_replies);
            &&& !(run.action is Finish)
            &&& run.sync.phase is Over ==> later_replies.len() > 0 && given_up_again(
                after(second, later_replies.drop_last()),
                later_replies.last(),
            )
        }),
{
    lemma_run(windows, d, replies);
    let shown = after(begun(windows, d), replies).domain;
    lemma_again(windows, shown, later_replies);
    lemma_run(windows, shown, later_replies);
}

} // verus!
