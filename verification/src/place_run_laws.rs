//! How the actions of a showing of listed windows follow from what came of the ones before.

use crate::domain::{with_pane, DomainView, PaneId, TabId, TabView};
use crate::domain_laws::law_showing_a_pane_keeps_the_tabs;
use crate::items::{LayoutView, PaneItem, WindowView};
use crate::listing_laws::regular;
use crate::window_run_laws::{
    actions, at_some_window, lemma_one_more, lemma_passed_over, lemma_told, of_session, tab_names,
    windows_entered,
};
use crate::window_sync::{
    lemma_next_window, split_request, Phase, SplitDirection, SyncAction, SyncReply, SyncView,
};
use crate::window_sync_laws::{
    after, begun, entering, fitting, law_reply_keeps_what_is_shown, lemma_proceed_stays, lemma_run,
    onward, Run,
};
use vstd::prelude::*;

verus! {

// ---------------------------------------------------------------------------
// Replies
// ---------------------------------------------------------------------------

/// Whether a reply answers an action.
pub open spec fn answers(reply: SyncReply, action: SyncAction) -> bool {
    match action {
        SyncAction::OpenWindow | SyncAction::FindPane { .. } | SyncAction::FindTab { .. } => reply
            is Place,
        SyncAction::SplitPane { .. } => match reply {
            SyncReply::Place(Some(place)) => place < usize::MAX,
            SyncReply::Place(None) => true,
            _ => false,
        },
        SyncAction::CreateTab { .. } | SyncAction::CreatePane { .. } | SyncAction::QueryActiveIndex {
            ..
        } => reply is Name,
        SyncAction::AssignPane { .. } | SyncAction::AddPane { .. } | SyncAction::ActivateTab {
            ..
        } => reply is Done,
        SyncAction::QueryActivePane { .. } | SyncAction::AddTab { .. } | SyncAction::ShowTitle {
            ..
        } => reply is Flag,
        SyncAction::Finish | SyncAction::Fail(_) | SyncAction::Abort => false,
    }
}

/// Whether an action is of the kind that is waited for.
pub open spec fn awaited(phase: Phase, action: SyncAction) -> bool {
    match phase {
        Phase::Gui => action is OpenWindow,
        Phase::Tab => action is CreateTab,
        Phase::SinglePane | Phase::SplitPane => action is CreatePane,
        Phase::SingleAssigned | Phase::SplitAssigned => action is AssignPane,
        Phase::SingleAdded | Phase::SplitAdded => action is AddPane,
        Phase::SplitActive => action is QueryActivePane,
        Phase::SplitIndexed => action is QueryActiveIndex,
        Phase::Splitting => action is SplitPane,
        Phase::Finding => action is FindPane,
        Phase::TabAdded => action is AddTab,
        Phase::Titled => action is ShowTitle,
        Phase::TabFound => action is FindTab,
        Phase::Activated => action is ActivateTab,
        Phase::Over => action is Finish || action is Fail || action is Abort,
    }
}

/// Going on with the panes of a window waits for what is to be done, and keeps the place.
pub proof fn lemma_proceed_awaits(st: SyncView, d: DomainView)
    ensures
        awaited(st.proceed(d).0.phase, st.proceed(d).1),
        st.proceed(d).0.split_index == st.split_index,
    decreases st.at_window().layout.len() - st.layout,
{
    if 0 <= st.layout < st.at_window().layout.len() && !(st.at_layout() is SinglePane) && st.pane
        >= st.at_layout().panes().len() {
        lemma_proceed_awaits(SyncView { layout: st.layout + 1, pane: 0, ..st }, d);
    }
}

/// What is waited for is what was to be done last.
pub proof fn lemma_awaited(first: Run, replies: Seq<SyncReply>)
    requires
        awaited(first.sync.phase, first.action),
    ensures
        awaited(after(first, replies).sync.phase, after(first, replies).action),
    decreases replies.len(),
{
    if replies.len() > 0 {
        lemma_awaited(first, replies.drop_last());
        let before = after(first, replies.drop_last());
        if let Some(on) = onward(before.sync, replies.last()) {
            lemma_proceed_awaits(on, before.domain);
        }
    }
}

/// A reply is taken exactly if it answers the last action: where a tab, a pane or the active place
/// is asked for, by a name; where something is looked for or split off, by a place or none; where
/// something is to be done, by yes or no, or by the word that it is done. Once the run is over, none
/// is.
pub proof fn law_replies_answer_the_last_action(
    windows: Seq<WindowView>,
    d: DomainView,
    replies: Seq<SyncReply>,
    reply: SyncReply,
)
    ensures
        after(begun(windows, d), replies).sync.fits(reply) <==> answers(
            reply,
            after(begun(windows, d), replies).action,
        ),
{
    lemma_awaited(begun(windows, d), replies);
}

// ---------------------------------------------------------------------------
// Places
// ---------------------------------------------------------------------------

/// The place that was last reported for the tab at hand: that of the active pane, that of a pane
/// that was looked for, or the one behind a pane that was split off.
pub open spec fn reported(first: Run, replies: Seq<SyncReply>) -> Option<usize>
    decreases replies.len(),
{
    if replies.len() == 0 {
        None
    } else {
        match (after(first, replies.drop_last()).action, replies.last()) {
            (SyncAction::CreateTab { .. }, _) => None,
            (SyncAction::QueryActiveIndex { .. }, SyncReply::Name(place)) => Some(place),
            (SyncAction::FindPane { .. }, SyncReply::Place(Some(place))) => Some(place),
            (SyncAction::SplitPane { .. }, SyncReply::Place(Some(place))) => Some(
                (place + 1) as usize,
            ),
            _ => reported(first, replies.drop_last()),
        }
    }
}

proof fn lemma_reported(windows: Seq<WindowView>, d: DomainView, replies: Seq<SyncReply>)
    ensures
        ({
            let run = after(begun(windows, d), replies);
            at_some_window(run.sync.phase) && !(run.sync.phase is Tab) ==> run.sync.split_index
                == (match reported(begun(windows, d), replies) {
                Some(place) => place,
                None => 1,
            })
        }),
    decreases replies.len(),
{
    let first = begun(windows, d);
    if replies.len() > 0 {
        let front = replies.drop_last();
        lemma_reported(windows, d, front);
        lemma_awaited(first, front);
        let before = after(first, front);
        if let Some(on) = onward(before.sync, replies.last()) {
            lemma_proceed_awaits(on, before.domain);
        }
    }
}

/// A pane is split off at the place that was last reported for its tab; where none was, at place 1.
pub proof fn law_panes_are_split_off_where_reported(
    windows: Seq<WindowView>,
    d: DomainView,
    replies: Seq<SyncReply>,
)
    ensures
        after(begun(windows, d), replies).action matches SyncAction::SplitPane {
            tab_id: _,
            local_pane_id: _,
            index,
            request: _,
        } ==> index == (match reported(begun(windows, d), replies) {
            Some(place) => place,
            None => 1,
        }),
{
    let first = begun(windows, d);
    lemma_awaited(first, replies);
    if replies.len() > 0 {
        let front = replies.drop_last();
        lemma_awaited(first, front);
        lemma_reported(windows, d, front);
        let before = after(first, front);
        if let Some(on) = onward(before.sync, replies.last()) {
            lemma_proceed_awaits(on, before.domain);
            lemma_proceed_stays(on, before.domain);
        }
    }
}

/// A pane of a row is split off to the side, as wide as it is; any other one is split off above, as
/// high as it is. It comes before the pane that is divided, and only that pane is divided.
pub proof fn law_request_is_as_large_as_the_pane(step: LayoutView, pane: PaneItem)
    ensures
        step is SplitHorizontal ==> split_request(step, pane).direction
            == SplitDirection::Horizontal && (pane.pane_width <= usize::MAX ==> split_request(
            step,
            pane,
        ).cells == pane.pane_width),
        !(step is SplitHorizontal) ==> split_request(step, pane).direction
            == SplitDirection::Vertical && (pane.pane_height <= usize::MAX ==> split_request(
            step,
            pane,
        ).cells == pane.pane_height),
        !split_request(step, pane).target_is_second,
        !split_request(step, pane).top_level,
{
}

// ---------------------------------------------------------------------------
// Panes that the multiplexer has
// ---------------------------------------------------------------------------

/// The names of the panes that were made in a run, in order.
pub open spec fn pane_names(first: Run, replies: Seq<SyncReply>) -> Seq<PaneId>
    decreases replies.len(),
{
    if replies.len() == 0 {
        seq![]
    } else {
        let before = pane_names(first, replies.drop_last());
        match (after(first, replies.drop_last()).action, replies.last()) {
            (SyncAction::CreatePane { .. }, SyncReply::Name(local)) => before.push(local),
            _ => before,
        }
    }
}

/// The handing over of panes to the multiplexer.
pub open spec fn handings(actions: Seq<SyncAction>) -> Seq<SyncAction> {
    actions.filter(|a: SyncAction| a is AddPane)
}

pub open spec fn all_handed(names: Seq<PaneId>) -> Seq<SyncAction> {
    names.map_values(|local_pane_id: PaneId| SyncAction::AddPane { local_pane_id })
}

proof fn lemma_handings(done: Seq<SyncAction>, action: SyncAction)
    ensures
        handings(done.push(action)) == (if action is AddPane {
            handings(done).push(action)
        } else {
            handings(done)
        }),
{
    reveal(Seq::filter);
    assert(done.push(action).drop_last() =~= done);
}

proof fn lemma_handed(windows: Seq<WindowView>, d: DomainView, replies: Seq<SyncReply>)
    requires
        fitting(begun(windows, d), replies),
    ensures
        ({
            let first = begun(windows, d);
            let run = after(first, replies);
            let names = pane_names(first, replies);
            let handed = handings(actions(first, replies));
            match run.sync.phase {
                Phase::SingleAssigned => names.len() > 0 && names.last() == run.sync.local && handed
                    == all_handed(names.drop_last()),
                Phase::Over => run.action is Finish ==> handed == all_handed(names),
                _ => handed == all_handed(names),
            }
        }),
    decreases replies.len(),
{
    let first = begun(windows, d);
    if replies.len() == 0 {
        reveal(Seq::filter);
        lemma_handings(seq![], first.action);
        assert(Seq::<SyncAction>::empty().push(first.action) =~= seq![first.action]);
        assert(handings(seq![first.action]) =~= all_handed(seq![]));
    } else {
        let front = replies.drop_last();
        let before = after(first, front);
        let run = after(first, replies);
        let old_names = pane_names(first, front);
        let names = pane_names(first, replies);
        lemma_handed(windows, d, front);
        lemma_awaited(first, front);
        lemma_awaited(first, replies);
        lemma_handings(actions(first, front), run.action);
        if let Some(on) = onward(before.sync, replies.last()) {
            lemma_proceed_stays(on, before.domain);
            lemma_proceed_awaits(on, before.domain);
        }
        if before.action is CreatePane {
            assert(names.drop_last() =~= old_names);
            assert(all_handed(names) =~= all_handed(old_names).push(
                SyncAction::AddPane { local_pane_id: names.last() },
            ));
        } else if before.sync.phase is SingleAssigned {
            assert(all_handed(names) =~= all_handed(names.drop_last()).push(
                SyncAction::AddPane { local_pane_id: names.last() },
            ));
        }
    }
}

/// However the actions turn out: once all is done, the multiplexer was handed each pane that was
/// made, once and in the order in which they were made, and no other.
pub proof fn law_finished_run_hands_over_each_pane(
    windows: Seq<WindowView>,
    d: DomainView,
    replies: Seq<SyncReply>,
)
    requires
        fitting(begun(windows, d), replies),
        after(begun(windows, d), replies).action is Finish,
    ensures
        handings(actions(begun(windows, d), replies)) == all_handed(
            pane_names(begun(windows, d), replies),
        ),
{
    lemma_handed(windows, d, replies);
    lemma_awaited(begun(windows, d), replies);
}

// ---------------------------------------------------------------------------
// The tabs that the domain knows
// ---------------------------------------------------------------------------

/// Whether a tab of the domain is one that it had.
pub open spec fn was_there(tab: TabView, d: DomainView) -> bool {
    exists|i: int|
        0 <= i < d.tabs.len() && (#[trigger] d.tabs[i]).tab_id == tab.tab_id
            && d.tabs[i].tmux_window_id == tab.tmux_window_id
}

/// Whether a tab is the one that was made for its window.
pub open spec fn made_for(tab: TabView, shown: Seq<WindowView>, names: Seq<TabId>) -> bool {
    exists|k: int|
        0 <= k < names.len() && k < shown.len() && #[trigger] names[k] == tab.tab_id
            && shown[k].window_id == tab.tmux_window_id
}

proof fn lemma_made_for_more(
    tab: TabView,
    shown: Seq<WindowView>,
    names: Seq<TabId>,
    later_shown: Seq<WindowView>,
    later_names: Seq<TabId>,
)
    requires
        made_for(tab, shown, names),
        shown.len() <= later_shown.len(),
        names.len() <= later_names.len(),
        forall|k: int| 0 <= k < shown.len() ==> shown[k] == #[trigger] later_shown[k],
        forall|k: int| 0 <= k < names.len() ==> names[k] == #[trigger] later_names[k],
    ensures
        made_for(tab, later_shown, later_names),
{
    let k = choose|k: int|
        0 <= k < names.len() && k < shown.len() && #[trigger] names[k] == tab.tab_id
            && shown[k].window_id == tab.tmux_window_id;
    assert(later_names[k] == tab.tab_id);
    assert(later_shown[k] == shown[k]);
}

proof fn lemma_known_tabs(windows: Seq<WindowView>, d: DomainView, replies: Seq<SyncReply>)
    requires
        d.wf(),
        fitting(begun(windows, d), replies),
        ({
            let run = after(begun(windows, d), replies);
            run.sync.phase is Over ==> run.action is Finish
        }),
        forall|i: int|
            0 <= i < windows.len() && (#[trigger] windows[i]).session_id == d.current_session()
                ==> regular(windows[i]),
    ensures
        ({
            let first = begun(windows, d);
            let run = after(first, replies);
            let shown = of_session(
                windows.take(windows_entered(run.sync)),
                d.current_session(),
            );
            forall|i: int|
                0 <= i < run.domain.tabs.len() ==> was_there(#[trigger] run.domain.tabs[i], d)
                    || made_for(run.domain.tabs[i], shown, tab_names(first, replies))
        }),
    decreases replies.len(),
{
    let first = begun(windows, d);
    let session = d.current_session();
    let run = after(first, replies);
    let names = tab_names(first, replies);
    let shown = of_session(windows.take(windows_entered(run.sync)), session);
    if replies.len() == 0 {
        assert forall|i: int| 0 <= i < run.domain.tabs.len() implies was_there(
            #[trigger] run.domain.tabs[i],
            d,
        ) by {
            assert(d.tabs[i].tab_id == run.domain.tabs[i].tab_id);
        }
    } else {
        let front = replies.drop_last();
        let reply = replies.last();
        let before = after(first, front);
        let st = before.sync;
        let old_names = tab_names(first, front);
        let old_shown = of_session(windows.take(windows_entered(st)), session);
        lemma_run(windows, d, front);
        lemma_run(windows, d, replies);
        lemma_told(windows, d, front);
        lemma_known_tabs(windows, d, front);
        law_reply_keeps_what_is_shown(before, reply);
        if let Some(on) = onward(st, reply) {
            lemma_proceed_stays(on, before.domain);
        }
        if let Some((_, from)) = entering(st, reply) {
            lemma_next_window(windows, session, from);
            lemma_passed_over(windows, session, from);
            if run.sync.window < windows.len() {
                lemma_one_more(windows, session, run.sync.window);
            }
            assert(of_session(windows.take(from), session) == old_shown);
        }
        assert forall|tab: TabView| made_for(tab, old_shown, old_names) implies #[trigger] made_for(
            tab,
            shown,
            names,
        ) by {
            lemma_made_for_more(tab, old_shown, old_names, shown, names);
        }
        if run.domain.tabs != before.domain.tabs {
            let pane = st.at_pane();
            assert(st.phase is SingleAssigned || st.phase is SplitPane);
            assert(run.domain.tabs == with_pane(
                before.domain.tabs,
                pane.window_id,
                pane.pane_id,
                st.tab,
            ));
            law_showing_a_pane_keeps_the_tabs(
                before.domain.tabs,
                pane.window_id,
                pane.pane_id,
                st.tab,
            );
            lemma_one_more(windows, session, st.window);
            assert(regular(st.at_window()));
            assert(pane.window_id == st.at_window().window_id) by {
                assert(st.at_window().layout[st.layout].panes()[st.pane] == pane);
            }
            let last = names.len() - 1;
            assert(names[last] == st.tab);
            assert(shown[last] == st.at_window());
            assert forall|i: int| 0 <= i < run.domain.tabs.len() implies was_there(
                #[trigger] run.domain.tabs[i],
                d,
            ) || made_for(run.domain.tabs[i], shown, names) by {
                let tab = run.domain.tabs[i];
                if i < before.domain.tabs.len() {
                    let old_tab = before.domain.tabs[i];
                    assert(old_tab.tab_id == tab.tab_id && old_tab.tmux_window_id
                        == tab.tmux_window_id);
                    if was_there(old_tab, d) {
                        let j = choose|j: int|
                            0 <= j < d.tabs.len() && (#[trigger] d.tabs[j]).tab_id
                                == old_tab.tab_id && d.tabs[j].tmux_window_id
                                == old_tab.tmux_window_id;
                        assert(d.tabs[j].tab_id == tab.tab_id);
                    } else {
                        assert(made_for(old_tab, shown, names));
                        let k = choose|k: int|
                            0 <= k < names.len() && k < shown.len() && #[trigger] names[k]
                                == old_tab.tab_id && shown[k].window_id
                                == old_tab.tmux_window_id;
                        assert(names[k] == tab.tab_id);
                    }
                } else {
                    assert(names[last] == tab.tab_id);
                }
            }
        }
    }
}

/// However the actions turn out: once all is done, every tab that the domain knows is one that it
/// knew, or the one that was made for its window.
pub proof fn law_known_tabs_are_those_made(
    windows: Seq<WindowView>,
    d: DomainView,
    replies: Seq<SyncReply>,
)
    requires
        d.wf(),
        fitting(begun(windows, d), replies),
        after(begun(windows, d), replies).action is Finish,
        forall|i: int|
            0 <= i < windows.len() && (#[trigger] windows[i]).session_id == d.current_session()
                ==> regular(windows[i]),
    ensures
        ({
            let first = begun(windows, d);
            let later = after(first, replies).domain;
            let shown = of_session(windows, d.current_session());
            forall|i: int|
                0 <= i < later.tabs.len() ==> was_there(#[trigger] later.tabs[i], d) || made_for(
                    later.tabs[i],
                    shown,
                    tab_names(first, replies),
                )
        }),
{
    lemma_run(windows, d, replies);
    lemma_known_tabs(windows, d, replies);
    assert(windows.take(windows.len() as int) =~= windows);
}

} // verus!
