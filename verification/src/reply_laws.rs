//! Which action follows on which reply, in a showing of listed windows.

use crate::domain::DomainView;
use crate::items::WindowView;
use crate::window_sync::{Phase, SyncAction, SyncError, SyncReply, SyncView};
use crate::window_sync_laws::{after, begun, fitting, onward, Run};
use vstd::prelude::*;

verus! {

/// Whether an action goes on with the panes of a tab: it makes one, looks for one, or puts the tab
/// into the window.
pub open spec fn goes_on_in(next: SyncAction, tab: usize) -> bool {
    match next {
        SyncAction::CreatePane { .. } => true,
        SyncAction::FindPane { tab_id, .. } => tab_id == tab,
        SyncAction::AddTab { tab_id, .. } => tab_id == tab,
        _ => false,
    }
}

/// Whether an action goes on with the windows: it makes a tab for one, or shows the title.
pub open spec fn goes_on_behind(next: SyncAction, gui: usize) -> bool {
    match next {
        SyncAction::CreateTab { .. } => true,
        SyncAction::ShowTitle { gui_window, .. } => gui_window == gui,
        _ => false,
    }
}

/// Whether an action may follow on a reply to another one.
pub open spec fn follows(action: SyncAction, reply: SyncReply, next: SyncAction) -> bool {
    let twice = next == SyncAction::Fail(SyncError::AlreadyAttached);
    match (action, reply) {
        (SyncAction::OpenWindow, SyncReply::Place(Some(gui))) => goes_on_behind(next, gui),
        (SyncAction::OpenWindow, _) => next == SyncAction::Fail(SyncError::NoGui),
        (SyncAction::CreateTab { .. }, SyncReply::Name(tab)) => goes_on_in(next, tab),
        (SyncAction::CreatePane { .. }, SyncReply::Name(local)) => twice || (match next {
            SyncAction::AssignPane { local_pane_id, .. } => local_pane_id == local,
            SyncAction::AddPane { local_pane_id } => local_pane_id == local,
            _ => false,
        }),
        (SyncAction::AssignPane { tab_id, local_pane_id }, _) => twice || next
            == (SyncAction::AddPane { local_pane_id }) || next == (SyncAction::QueryActiveIndex {
            tab_id,
        }),
        (SyncAction::AddPane { .. }, _) => next is AddTab || next is QueryActivePane,
        (SyncAction::QueryActivePane { tab_id: tab }, SyncReply::Flag(true)) => match next {
            SyncAction::SplitPane { tab_id, .. } => tab_id == tab,
            _ => false,
        },
        (SyncAction::QueryActivePane { tab_id: tab }, _) => match next {
            SyncAction::AssignPane { tab_id, .. } => tab_id == tab,
            _ => false,
        },
        (SyncAction::QueryActiveIndex { tab_id }, _) => goes_on_in(next, tab_id),
        (SyncAction::SplitPane { tab_id, .. }, SyncReply::Place(Some(_))) => goes_on_in(
            next,
            tab_id,
        ),
        (SyncAction::SplitPane { .. }, _) => next is Abort,
        (SyncAction::FindPane { tab_id, .. }, SyncReply::Place(Some(_))) => goes_on_in(
            next,
            tab_id,
        ),
        (SyncAction::FindPane { local_pane_id, .. }, _) => next == SyncAction::Fail(
            SyncError::InvalidPane(local_pane_id),
        ),
        (SyncAction::AddTab { gui_window, .. }, SyncReply::Flag(true)) => goes_on_behind(
            next,
            gui_window,
        ),
        (SyncAction::AddTab { .. }, _) => next is Abort,
        (SyncAction::ShowTitle { gui_window: gui, .. }, SyncReply::Flag(true)) => match next {
            SyncAction::FindTab { gui_window, .. } => gui_window == gui,
            _ => next is Finish,
        },
        (SyncAction::ShowTitle { .. }, _) => next is Finish,
        (SyncAction::FindTab { gui_window, .. }, SyncReply::Place(Some(index))) => next
            == (SyncAction::ActivateTab { gui_window, index }),
        (SyncAction::FindTab { gui_window, tab_id }, _) => next == SyncAction::Fail(
            SyncError::TabNotInWindow { tab_id, gui_window },
        ),
        (SyncAction::ActivateTab { .. }, _) => next is Finish,
        _ => false,
    }
}

/// What a showing of windows knows of the last action.
spec fn keeps_in_mind(st: SyncView, action: SyncAction) -> bool {
    match st.phase {
        Phase::Gui => action is OpenWindow,
        Phase::Tab => action is CreateTab,
        Phase::SinglePane | Phase::SplitPane => action is CreatePane,
        Phase::SingleAssigned | Phase::SplitAssigned => action == (SyncAction::AssignPane {
            tab_id: st.tab,
            local_pane_id: st.local,
        }),
        Phase::SingleAdded | Phase::SplitAdded => action == (SyncAction::AddPane {
            local_pane_id: st.local,
        }),
        Phase::SplitActive => action == (SyncAction::QueryActivePane { tab_id: st.tab }),
        Phase::SplitIndexed => action == (SyncAction::QueryActiveIndex { tab_id: st.tab }),
        Phase::Splitting => match action {
            SyncAction::SplitPane { tab_id, .. } => tab_id == st.tab,
            _ => false,
        },
        Phase::Finding => action == (SyncAction::FindPane {
            tab_id: st.tab,
            local_pane_id: st.local,
        }),
        Phase::TabAdded => action == (SyncAction::AddTab {
            tab_id: st.tab,
            gui_window: st.gui_window,
        }),
        Phase::Titled => match action {
            SyncAction::ShowTitle { gui_window, .. } => gui_window == st.gui_window,
            _ => false,
        },
        Phase::TabFound => st.active_tab is Some && action == (SyncAction::FindTab {
            gui_window: st.gui_window,
            tab_id: st.active_tab->0,
        }),
        Phase::Activated => action is ActivateTab,
        Phase::Over => true,
    }
}

proof fn lemma_proceed_in_mind(st: SyncView, d: DomainView)
    ensures
        keeps_in_mind(st.proceed(d).0, st.proceed(d).1),
        goes_on_in(st.proceed(d).1, st.tab),
    decreases st.at_window().layout.len() - st.layout,
{
    if 0 <= st.layout < st.at_window().layout.len() && !(st.at_layout() is SinglePane) && st.pane
        >= st.at_layout().panes().len() {
        lemma_proceed_in_mind(SyncView { layout: st.layout + 1, pane: 0, ..st }, d);
    }
}

proof fn lemma_in_mind(first: Run, replies: Seq<SyncReply>)
    requires
        keeps_in_mind(first.sync, first.action),
    ensures
        keeps_in_mind(after(first, replies).sync, after(first, replies).action),
    decreases replies.len(),
{
    if replies.len() > 0 {
        lemma_in_mind(first, replies.drop_last());
        let before = after(first, replies.drop_last());
        if let Some(on) = onward(before.sync, replies.last()) {
            lemma_proceed_in_mind(on, before.domain);
        }
    }
}

/// Whatever the windows, the domain and the replies so far: what is to be done next follows from the
/// last action and what came of it. A tab that was made is filled and then put into the window; a
/// pane that was made is handed over; a tab with an active pane is split, one without gets its first
/// pane; what is not found or not done ends the run, and is named; the title comes behind the last
/// tab; and without a window to give the title to, the run is over.
pub proof fn law_next_action_follows_on_the_reply(
    windows: Seq<WindowView>,
    d: DomainView,
    replies: Seq<SyncReply>,
    reply: SyncReply,
)
    requires
        fitting(begun(windows, d), replies.push(reply)),
    ensures
        follows(
            after(begun(windows, d), replies).action,
            reply,
            after(begun(windows, d), replies.push(reply)).action,
        ),
{
    let first = begun(windows, d);
    assert(replies.push(reply).drop_last() =~= replies);
    lemma_in_mind(first, replies);
    let before = after(first, replies);
    if let Some(on) = onward(before.sync, reply) {
        lemma_proceed_in_mind(on, before.domain);
    }
}

} // verus!
