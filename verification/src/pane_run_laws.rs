//! What a whole showing of listed windows puts into the tab of a window.

use crate::domain::{
    cells_size, is_attached, law_attaching_adds_one, lemma_attached_is_known, DomainView, PaneId,
    TabId,
};
use crate::items::{LayoutView, PaneItem, TmuxPaneId, TmuxSessionId, WindowView};
use crate::layout_tree::{lists, mentions};
use crate::listing_laws::regular;
use crate::window_run_laws::{
    actions, at_some_window, lemma_one_more, lemma_stands_behind, lemma_told, of_session, tab_names,
};
use crate::window_sync::{
    lemma_next_window, split_request, Phase, SyncAction, SyncReply, SyncView,
};
use crate::window_sync_laws::{
    after, begun, entering, fitting, in_session, law_reply_keeps_what_is_shown, lemma_proceed_stays,
    lemma_run, onward, reached, step_shown, window_shown, Run,
};
use vstd::prelude::*;

verus! {

// ---------------------------------------------------------------------------
// The panes of a window
// ---------------------------------------------------------------------------

/// A pane, and the layout step in which it is named first.
pub struct NewPane {
    pub step: LayoutView,
    pub pane: PaneItem,
}

/// Whether one of the panes has that number.
pub open spec fn named_in(panes: Seq<NewPane>, id: TmuxPaneId) -> bool {
    exists|k: int| 0 <= k < panes.len() && (#[trigger] panes[k]).pane.pane_id == id
}

/// The panes there are, and those that the first panes of a step, so many of them, add to them.
pub open spec fn with_step(seen: Seq<NewPane>, step: LayoutView, count: int) -> Seq<NewPane>
    decreases count,
{
    if count <= 0 {
        seen
    } else {
        let before = with_step(seen, step, count - 1);
        let pane = step.panes()[count - 1];
        if named_in(before, pane.pane_id) {
            before
        } else {
            before.push(NewPane { step, pane })
        }
    }
}

/// The panes of the first layout steps, so many of them: each once, where it is named first.
pub open spec fn new_panes(layout: Seq<LayoutView>, count: int) -> Seq<NewPane>
    decreases count,
{
    if count <= 0 {
        seq![]
    } else {
        with_step(
            new_panes(layout, count - 1),
            layout[count - 1],
            layout[count - 1].panes().len() as int,
        )
    }
}

/// The panes of a window: each once, where its layout names it first.
pub open spec fn window_panes(w: WindowView) -> Seq<NewPane> {
    new_panes(w.layout, w.layout.len() as int)
}

/// Whether no two panes have the same number.
pub open spec fn distinct(panes: Seq<NewPane>) -> bool {
    forall|j: int, k: int|
        0 <= j < k < panes.len() ==> (#[trigger] panes[j]).pane.pane_id != (
        #[trigger] panes[k]).pane.pane_id
}

proof fn lemma_named_push(panes: Seq<NewPane>, new: NewPane)
    ensures
        forall|id: TmuxPaneId| #[trigger]
            named_in(panes.push(new), id) <==> named_in(panes, id) || id == new.pane.pane_id,
{
    let more = panes.push(new);
    assert forall|id: TmuxPaneId| #[trigger] named_in(more, id) <==> named_in(panes, id) || id
        == new.pane.pane_id by {
        if named_in(panes, id) {
            let k = choose|k: int|
                0 <= k < panes.len() && (#[trigger] panes[k]).pane.pane_id == id;
            assert(more[k].pane.pane_id == id);
        }
        if id == new.pane.pane_id {
            assert(more[panes.len() as int].pane.pane_id == id);
        }
        if named_in(more, id) {
            let k = choose|k: int| 0 <= k < more.len() && (#[trigger] more[k]).pane.pane_id == id;
            assert(k < panes.len() ==> panes[k].pane.pane_id == id);
        }
    }
}

/// The panes of a step are added to those there are, each once.
pub proof fn lemma_with_step(seen: Seq<NewPane>, step: LayoutView, count: int)
    requires
        distinct(seen),
        0 <= count <= step.panes().len(),
    ensures
        distinct(with_step(seen, step, count)),
        forall|id: TmuxPaneId| #[trigger]
            named_in(with_step(seen, step, count), id) <==> named_in(seen, id) || lists(
                step.panes().take(count),
                id,
            ),
    decreases count,
{
    if count > 0 {
        lemma_with_step(seen, step, count - 1);
        let before = with_step(seen, step, count - 1);
        let pane = step.panes()[count - 1];
        lemma_named_push(before, NewPane { step, pane });
        assert forall|id: TmuxPaneId| #[trigger]
            named_in(with_step(seen, step, count), id) <==> named_in(seen, id) || lists(
            step.panes().take(count),
            id,
        ) by {
            assert(named_in(before, id) <==> named_in(seen, id) || lists(step.panes().take(count - 1), id));
            if lists(step.panes().take(count - 1), id) {
                let k = choose|k: int|
                    0 <= k < count - 1 && (#[trigger] step.panes().take(count - 1)[k]).pane_id
                        == id;
                assert(step.panes().take(count)[k].pane_id == id);
            }
            if id == pane.pane_id {
                assert(step.panes().take(count)[count - 1].pane_id == id);
            }
            if lists(step.panes().take(count), id) {
                let k = choose|k: int|
                    0 <= k < count && (#[trigger] step.panes().take(count)[k]).pane_id == id;
                assert(k < count - 1 ==> step.panes().take(count - 1)[k].pane_id == id);
            }
        }
    }
}

/// The panes of the first layout steps are those that they name, each once.
pub proof fn lemma_new_panes(layout: Seq<LayoutView>, count: int)
    requires
        0 <= count <= layout.len(),
    ensures
        distinct(new_panes(layout, count)),
        forall|id: TmuxPaneId| #[trigger]
            named_in(new_panes(layout, count), id) <==> mentions(layout.take(count), id),
    decreases count,
{
    if count > 0 {
        let step = layout[count - 1];
        let n = step.panes().len() as int;
        lemma_new_panes(layout, count - 1);
        lemma_with_step(new_panes(layout, count - 1), step, n);
        assert(step.panes().take(n) =~= step.panes());
        assert forall|id: TmuxPaneId| #[trigger]
            named_in(new_panes(layout, count), id) <==> mentions(layout.take(count), id) by {
            assert(named_in(new_panes(layout, count - 1), id) <==> mentions(
                layout.take(count - 1),
                id,
            ));
            if mentions(layout.take(count - 1), id) {
                let k = choose|k: int|
                    0 <= k < count - 1 && lists((#[trigger] layout.take(count - 1)[k]).panes(), id);
                assert(lists(layout.take(count)[k].panes(), id));
            }
            if lists(step.panes(), id) {
                assert(lists(layout.take(count)[count - 1].panes(), id));
            }
            if mentions(layout.take(count), id) {
                let k = choose|k: int|
                    0 <= k < count && lists((#[trigger] layout.take(count)[k]).panes(), id);
                assert(k < count - 1 ==> lists(layout.take(count - 1)[k].panes(), id));
            }
        }
    }
}

/// The panes of a window are those that its layout names, each of them once.
pub proof fn law_window_panes_are_each_once(w: WindowView)
    ensures
        distinct(window_panes(w)),
        forall|id: TmuxPaneId| #[trigger] named_in(window_panes(w), id) <==> mentions(w.layout, id),
{
    lemma_new_panes(w.layout, w.layout.len() as int);
    assert(w.layout.take(w.layout.len() as int) =~= w.layout);
}

// ---------------------------------------------------------------------------
// What is done with them
// ---------------------------------------------------------------------------

/// The making of a pane.
pub open spec fn creation(new: NewPane) -> SyncAction {
    SyncAction::CreatePane {
        pane_id: new.pane.pane_id,
        size: cells_size(new.pane.pane_width, new.pane.pane_height),
    }
}

pub open spec fn creations(panes: Seq<NewPane>) -> Seq<SyncAction> {
    panes.map_values(|new: NewPane| creation(new))
}

/// Whether an action makes a pane that a layout names.
pub open spec fn makes_one_of(action: SyncAction, layout: Seq<LayoutView>) -> bool {
    action matches SyncAction::CreatePane { pane_id, size: _ } && mentions(layout, pane_id)
}

/// The making of the panes that a layout names.
pub open spec fn made_of(actions: Seq<SyncAction>, layout: Seq<LayoutView>) -> Seq<SyncAction> {
    actions.filter(|a: SyncAction| makes_one_of(a, layout))
}

/// Whether an action puts a pane into a tab.
pub open spec fn puts_into(action: SyncAction, tab: TabId) -> bool {
    match action {
        SyncAction::AssignPane { tab_id, .. } => tab_id == tab,
        SyncAction::SplitPane { tab_id, .. } => tab_id == tab,
        _ => false,
    }
}

/// The putting of panes into a tab.
pub open spec fn put_into(actions: Seq<SyncAction>, tab: TabId) -> Seq<SyncAction> {
    actions.filter(|a: SyncAction| puts_into(a, tab))
}

/// Whether an action puts a pane into a tab, behind `k` others: the first one, and one that is a
/// layout step by itself, is given the tab, and every other is split off as its layout step wants
/// it.
pub open spec fn puts_rightly(
    action: SyncAction,
    k: int,
    new: NewPane,
    tab: TabId,
    local: PaneId,
) -> bool {
    if k == 0 || new.step is SinglePane {
        action == (SyncAction::AssignPane { tab_id: tab, local_pane_id: local })
    } else {
        action matches SyncAction::SplitPane { tab_id, local_pane_id, index: _, request } && tab_id
            == tab && local_pane_id == local && request == split_request(new.step, new.pane)
    }
}

/// Whether panes are put into a tab, one after the other, under the names by which the domain
/// knows them.
pub open spec fn laid_out(
    puts: Seq<SyncAction>,
    panes: Seq<NewPane>,
    tab: TabId,
    d: DomainView,
) -> bool {
    &&& puts.len() == panes.len()
    &&& forall|k: int|
        0 <= k < panes.len() ==> puts_rightly(
            #[trigger] puts[k],
            k,
            panes[k],
            tab,
            d.remotes[panes[k].pane.pane_id].local_pane_id,
        )
}

/// Whether a domain keeps of a pane what tmux said of it, and of its window which one it is.
pub open spec fn remembers(d: DomainView, pane: PaneItem, w: WindowView) -> bool {
    let kept = d.remotes[pane.pane_id];
    &&& kept.pane_id == pane.pane_id
    &&& kept.session_id == w.session_id
    &&& kept.window_id == w.window_id
    &&& kept.pane_width == pane.pane_width
    &&& kept.pane_height == pane.pane_height
    &&& kept.pane_left == pane.pane_left
    &&& kept.pane_top == pane.pane_top
    &&& kept.cursor_x == pane.cursor_x
    &&& kept.cursor_y == pane.cursor_y
}

pub open spec fn remembers_all(d: DomainView, panes: Seq<NewPane>, w: WindowView) -> bool {
    forall|k: int| 0 <= k < panes.len() ==> remembers(d, (#[trigger] panes[k]).pane, w)
}

/// Whether a tab is said to have an active pane exactly if one was put there. The tabs of a run are
/// new, so nothing else is in them.
pub open spec fn candid(first: Run, replies: Seq<SyncReply>) -> bool
    decreases replies.len(),
{
    replies.len() == 0 || (candid(first, replies.drop_last()) && match after(
        first,
        replies.drop_last(),
    ).action {
        SyncAction::QueryActivePane { tab_id } => replies.last() == SyncReply::Flag(
            put_into(actions(first, replies.drop_last()), tab_id).len() > 0,
        ),
        _ => true,
    })
}

/// Whether no other window of the session has a pane of this one.
pub open spec fn apart(windows: Seq<WindowView>, session: TmuxSessionId, i: int) -> bool {
    forall|j: int, id: TmuxPaneId|
        0 <= j < windows.len() && j != i && windows[j].session_id == session && mentions(
            windows[i].layout,
            id,
        ) ==> !#[trigger] mentions(windows[j].layout, id)
}

/// Whether no pane of a window is shown.
pub open spec fn none_shown(w: WindowView, d: DomainView) -> bool {
    forall|id: TmuxPaneId|
        mentions(w.layout, id) ==> !#[trigger] is_attached(d.tabs, w.window_id, id)
}

// ---------------------------------------------------------------------------
// How far a run has come with a window
// ---------------------------------------------------------------------------

/// The panes of the window at hand before the one at hand.
pub open spec fn panes_before(st: SyncView) -> Seq<NewPane> {
    let layout = st.at_window().layout;
    if st.layout < layout.len() {
        with_step(new_panes(layout, st.layout), layout[st.layout], st.pane)
    } else {
        new_panes(layout, layout.len() as int)
    }
}

/// The pane at hand.
pub open spec fn pane_here(st: SyncView) -> NewPane {
    NewPane { step: st.at_layout(), pane: st.at_pane() }
}

/// Whether the panes of a window that are shown are the given ones.
pub open spec fn shown_are(w: WindowView, panes: Seq<NewPane>, d: DomainView) -> bool {
    forall|id: TmuxPaneId|
        mentions(w.layout, id) ==> (#[trigger] is_attached(d.tabs, w.window_id, id) <==> named_in(
            panes,
            id,
        ))
}

/// Whether of the panes of a window these were made and those put into its tab.
pub open spec fn dealt_with(
    done: Seq<SyncAction>,
    w: WindowView,
    tab: TabId,
    made: Seq<NewPane>,
    put: Seq<NewPane>,
    d: DomainView,
) -> bool {
    &&& made_of(done, w.layout) == creations(made)
    &&& laid_out(put_into(done, tab), put, tab, d)
    &&& remembers_all(d, put, w)
}

/// Where a run stands at a window, once that has its tab.
pub open spec fn at_work(run: Run, done: Seq<SyncAction>) -> bool {
    let st = run.sync;
    let d = run.domain;
    let w = st.at_window();
    let seen = panes_before(st);
    let more = seen.push(pane_here(st));
    let id = st.at_pane().pane_id;
    match st.phase {
        Phase::TabAdded => dealt_with(done, w, st.tab, window_panes(w), window_panes(w), d),
        Phase::SinglePane => !d.attached(st.at_pane()) ==> dealt_with(done, w, st.tab, more, seen, d)
            && shown_are(w, seen, d),
        Phase::SingleAssigned => !d.attached(st.at_pane()) ==> dealt_with(
            done,
            w,
            st.tab,
            more,
            more,
            d,
        ) && shown_are(w, seen, d),
        Phase::SingleAdded => dealt_with(done, w, st.tab, more, more, d) && !named_in(seen, id),
        Phase::Finding => dealt_with(done, w, st.tab, seen, seen, d) && shown_are(w, seen, d)
            && d.attached(st.at_pane()),
        Phase::SplitPane => dealt_with(done, w, st.tab, more, seen, d) && shown_are(w, seen, d)
            && !d.attached(st.at_pane()),
        Phase::SplitAdded | Phase::SplitActive => {
            &&& dealt_with(done, w, st.tab, more, seen, d)
            &&& shown_are(w, more, d)
            &&& !named_in(seen, id)
            &&& d.remotes[id].local_pane_id == st.local
            &&& remembers(d, st.at_pane(), w)
            &&& st.phase is SplitActive ==> run.action == (SyncAction::QueryActivePane {
                tab_id: st.tab,
            })
        },
        _ => dealt_with(done, w, st.tab, more, more, d) && shown_are(w, more, d) && !named_in(seen, id),
    }
}

/// Where a run stands as to the panes of a window.
pub open spec fn pane_story(first: Run, replies: Seq<SyncReply>, i: int) -> bool {
    let run = after(first, replies);
    let st = run.sync;
    let w = st.windows[i];
    let done = actions(first, replies);
    let names = tab_names(first, replies);
    let before = of_session(st.windows.take(i), st.session).len() as int;
    &&& forall|k: int, tab: TabId|
        0 <= k < done.len() && #[trigger] puts_into(done[k], tab) ==> names.contains(tab)
    &&& if st.phase is Gui || (at_some_window(st.phase) && (st.window < i || (st.window == i
        && st.phase is Tab))) {
        none_shown(w, run.domain) && made_of(done, w.layout).len() == 0
    } else if at_some_window(st.phase) && st.window == i {
        names.len() == before + 1 && names[before] == st.tab && at_work(run, done)
    } else {
        names.len() > before && dealt_with(
            done,
            w,
            names[before],
            window_panes(w),
            window_panes(w),
            run.domain,
        )
    }
}

// ---------------------------------------------------------------------------
// One more action
// ---------------------------------------------------------------------------

proof fn lemma_filters(
    done: Seq<SyncAction>,
    action: SyncAction,
    layout: Seq<LayoutView>,
    tab: TabId,
)
    ensures
        made_of(done.push(action), layout) == (if makes_one_of(action, layout) {
            made_of(done, layout).push(action)
        } else {
            made_of(done, layout)
        }),
        put_into(done.push(action), tab) == (if puts_into(action, tab) {
            put_into(done, tab).push(action)
        } else {
            put_into(done, tab)
        }),
{
    reveal(Seq::filter);
    assert(done.push(action).drop_last() =~= done);
}

/// Nothing is put into a tab that has no name yet.
proof fn lemma_nothing_put(done: Seq<SyncAction>, tab: TabId)
    requires
        forall|k: int| 0 <= k < done.len() ==> !#[trigger] puts_into(done[k], tab),
    ensures
        put_into(done, tab).len() == 0,
    decreases done.len(),
{
    reveal(Seq::filter);
    if done.len() > 0 {
        let front = done.drop_last();
        assert forall|k: int| 0 <= k < front.len() implies !#[trigger] puts_into(front[k], tab) by {
            assert(!puts_into(done[k], tab));
        }
        lemma_nothing_put(front, tab);
        assert(!puts_into(done[done.len() - 1], tab));
    }
}

/// What is laid out stays so where the domain knows its panes by the same names.
proof fn lemma_laid_out_still(
    puts: Seq<SyncAction>,
    panes: Seq<NewPane>,
    tab: TabId,
    d: DomainView,
    later: DomainView,
)
    requires
        laid_out(puts, panes, tab, d),
        forall|k: int|
            0 <= k < panes.len() ==> later.remotes[(#[trigger] panes[k]).pane.pane_id]
                == d.remotes[panes[k].pane.pane_id],
    ensures
        laid_out(puts, panes, tab, later),
{
    assert forall|k: int| 0 <= k < panes.len() implies puts_rightly(
        #[trigger] puts[k],
        k,
        panes[k],
        tab,
        later.remotes[panes[k].pane.pane_id].local_pane_id,
    ) by {
        assert(later.remotes[panes[k].pane.pane_id] == d.remotes[panes[k].pane.pane_id]);
    }
}

proof fn lemma_remembers_still(
    panes: Seq<NewPane>,
    w: WindowView,
    d: DomainView,
    later: DomainView,
)
    requires
        remembers_all(d, panes, w),
        forall|k: int|
            0 <= k < panes.len() ==> later.remotes[(#[trigger] panes[k]).pane.pane_id]
                == d.remotes[panes[k].pane.pane_id],
    ensures
        remembers_all(later, panes, w),
{
    assert forall|k: int| 0 <= k < panes.len() implies remembers(
        later,
        (#[trigger] panes[k]).pane,
        w,
    ) by {
        assert(remembers(d, panes[k].pane, w));
    }
}

proof fn lemma_remembers_more(panes: Seq<NewPane>, w: WindowView, d: DomainView, new: NewPane)
    requires
        remembers_all(d, panes, w),
        remembers(d, new.pane, w),
    ensures
        remembers_all(d, panes.push(new), w),
{
    let all = panes.push(new);
    assert forall|k: int| 0 <= k < all.len() implies remembers(d, (#[trigger] all[k]).pane, w) by {
        if k < panes.len() {
            assert(remembers(d, panes[k].pane, w));
        }
    }
}

proof fn lemma_laid_out_more(
    puts: Seq<SyncAction>,
    panes: Seq<NewPane>,
    tab: TabId,
    d: DomainView,
    action: SyncAction,
    new: NewPane,
)
    requires
        laid_out(puts, panes, tab, d),
        puts_rightly(
            action,
            panes.len() as int,
            new,
            tab,
            d.remotes[new.pane.pane_id].local_pane_id,
        ),
    ensures
        laid_out(puts.push(action), panes.push(new), tab, d),
{
    let more = puts.push(action);
    let all = panes.push(new);
    assert forall|k: int| 0 <= k < all.len() implies puts_rightly(
        #[trigger] more[k],
        k,
        all[k],
        tab,
        d.remotes[all[k].pane.pane_id].local_pane_id,
    ) by {
        if k < panes.len() {
            assert(more[k] == puts[k]);
        }
    }
}

/// The pane at hand is named by its window.
pub proof fn lemma_here_is_named(st: SyncView)
    requires
        st.in_layout(),
    ensures
        mentions(st.at_window().layout, st.at_pane().pane_id),
{
    let layout = st.at_window().layout;
    assert(layout[st.layout].panes()[st.pane].pane_id == st.at_pane().pane_id);
    assert(lists(layout[st.layout].panes(), st.at_pane().pane_id));
}

/// The panes before the one at hand are named by the window, and no two of them have the same
/// number.
proof fn lemma_before_is_named(st: SyncView)
    requires
        st.in_layout(),
    ensures
        distinct(panes_before(st)),
        forall|id: TmuxPaneId| #[trigger]
            named_in(panes_before(st), id) ==> mentions(st.at_window().layout, id),
{
    let layout = st.at_window().layout;
    let step = st.at_layout();
    lemma_new_panes(layout, st.layout);
    lemma_with_step(new_panes(layout, st.layout), step, st.pane);
    assert forall|id: TmuxPaneId| #[trigger] named_in(panes_before(st), id) implies mentions(
        layout,
        id,
    ) by {
        if lists(step.panes().take(st.pane), id) {
            let k = choose|k: int|
                0 <= k < st.pane && (#[trigger] step.panes().take(st.pane)[k]).pane_id == id;
            assert(step.panes()[k].pane_id == id);
            assert(lists(layout[st.layout].panes(), id));
        } else {
            assert(mentions(layout.take(st.layout), id));
            let l = choose|l: int|
                0 <= l < st.layout && lists((#[trigger] layout.take(st.layout)[l]).panes(), id);
            assert(lists(layout[l].panes(), id));
        }
    }
}

/// Only where a pane is at hand is one made or put into a tab, and that is the tab at hand.
proof fn lemma_puts_and_makes(run: Run, reply: SyncReply)
    requires
        run.sound(),
        run.sync.fits(reply),
    ensures
        ({
            let st = run.sync;
            let next = run.next(reply);
            let action = next.action;
            &&& forall|tab: TabId| #[trigger]
                puts_into(action, tab) ==> (st.phase is SinglePane || st.phase is SplitActive) && tab
                    == st.tab
            &&& action is CreatePane ==> next.sync.in_layout() && next.sync.window == st.window
                && next.sync.windows == st.windows && (next.sync.phase is SinglePane
                || next.sync.phase is SplitPane) && action == creation(pane_here(next.sync))
            &&& next.sync.phase is SinglePane || next.sync.phase is SplitPane
                ==> action is CreatePane
        }),
{
    if let Some(on) = onward(run.sync, reply) {
        lemma_proceed_stays(on, run.domain);
        lemma_proceed_makes(on, run.domain);
    }
}

proof fn lemma_proceed_makes(st: SyncView, d: DomainView)
    requires
        st.in_window(),
        0 <= st.layout,
        0 <= st.pane,
    ensures
        ({
            let (next, action) = st.proceed(d);
            &&& !(action is AssignPane) && !(action is SplitPane)
            &&& action is CreatePane <==> next.phase is SinglePane || next.phase is SplitPane
            &&& action is CreatePane ==> next.in_layout() && action == creation(pane_here(next))
        }),
    decreases st.at_window().layout.len() - st.layout,
{
    if 0 <= st.layout < st.at_window().layout.len() && !(st.at_layout() is SinglePane) && st.pane
        >= st.at_layout().panes().len() {
        lemma_proceed_makes(SyncView { layout: st.layout + 1, pane: 0, ..st }, d);
    }
}

/// Going on with the panes of a window passes over none of them.
proof fn lemma_proceed_keeps_place(st: SyncView, d: DomainView)
    requires
        st.in_window(),
        regular(st.at_window()),
        0 <= st.layout <= st.at_window().layout.len(),
        0 <= st.pane,
        st.layout < st.at_window().layout.len() ==> st.pane <= st.at_layout().panes().len() && (
        st.at_layout() is SinglePane ==> st.pane == 0),
    ensures
        ({
            let next = st.proceed(d).0;
            &&& next.at_window() == st.at_window()
            &&& match next.phase {
                Phase::TabAdded => panes_before(st) == window_panes(st.at_window()),
                Phase::SinglePane | Phase::SplitPane => panes_before(next) == panes_before(st)
                    && next.in_layout() && (next.phase is SplitPane ==> !d.attached(
                    next.at_pane(),
                )),
                Phase::Finding => panes_before(next) == panes_before(st) && next.in_layout()
                    && d.attached(next.at_pane()),
                _ => false,
            }
        }),
    decreases st.at_window().layout.len() - st.layout,
{
    let next = SyncView { layout: st.layout + 1, pane: 0, ..st };
    assert(next.at_window() == st.at_window());
    if st.layout < st.at_window().layout.len() && !(st.at_layout() is SinglePane) && st.pane
        >= st.at_layout().panes().len() {
        lemma_proceed_keeps_place(next, d);
    }
}

/// Going on with the panes of a window, once those before are dealt with.
proof fn lemma_work_goes_on(st: SyncView, d: DomainView, done: Seq<SyncAction>)
    requires
        st.in_window(),
        regular(st.at_window()),
        0 <= st.layout <= st.at_window().layout.len(),
        0 <= st.pane,
        st.layout < st.at_window().layout.len() ==> st.pane <= st.at_layout().panes().len() && (
        st.at_layout() is SinglePane ==> st.pane == 0),
        dealt_with(done, st.at_window(), st.tab, panes_before(st), panes_before(st), d),
        shown_are(st.at_window(), panes_before(st), d),
    ensures
        at_work(
            Run { sync: st.proceed(d).0, domain: d, action: st.proceed(d).1 },
            done.push(st.proceed(d).1),
        ),
{
    let (next, action) = st.proceed(d);
    let w = st.at_window();
    let seen = panes_before(st);
    lemma_proceed_keeps_place(st, d);
    lemma_proceed_stays(st, d);
    lemma_proceed_makes(st, d);
    lemma_filters(done, action, w.layout, st.tab);
    if action is CreatePane {
        lemma_here_is_named(next);
        assert(creations(seen.push(pane_here(next))) =~= creations(seen).push(
            creation(pane_here(next)),
        ));
    }
}

/// One reply at a window that has its tab, where the same pane stays at hand or the tab is left.
proof fn lemma_work_step(run: Run, reply: SyncReply, done: Seq<SyncAction>)
    requires
        run.sound(),
        run.sync.fits(reply),
        at_some_window(run.sync.phase),
        !(run.sync.phase is Tab) && !(run.sync.phase is TabAdded),
        onward(run.sync, reply) is None,
        regular(run.sync.at_window()),
        at_work(run, done),
        !(run.next(reply).sync.phase is Over),
        run.sync.phase is SplitActive ==> reply == SyncReply::Flag(
            put_into(done, run.sync.tab).len() > 0,
        ),
    ensures
        at_work(run.next(reply), done.push(run.next(reply).action)),
        run.next(reply).sync.window == run.sync.window,
        run.next(reply).sync.tab == run.sync.tab,
        at_some_window(run.next(reply).sync.phase) && !(run.next(reply).sync.phase is Tab),
{
    let st = run.sync;
    let d = run.domain;
    let next = run.next(reply);
    let d1 = next.domain;
    let action = next.action;
    let w = st.at_window();
    let seen = panes_before(st);
    let here = pane_here(st);
    let more = seen.push(here);
    let pane = st.at_pane();
    assert(pane.window_id == w.window_id) by {
        assert(w.layout[st.layout].panes()[st.pane].window_id == w.window_id);
    }
    lemma_here_is_named(st);
    lemma_before_is_named(st);
    lemma_filters(done, action, w.layout, st.tab);
    lemma_named_push(seen, here);
    assert(next.sync.at_window() == w);
    assert(panes_before(next.sync) == seen);
    let put = put_into(done, st.tab);
    if st.phase is SinglePane || st.phase is SplitPane {
        if !d.attached(pane) {
            assert(!named_in(seen, pane.pane_id));
            assert forall|k: int| 0 <= k < seen.len() implies d1.remotes[(
            #[trigger] seen[k]).pane.pane_id] == d.remotes[seen[k].pane.pane_id] by {
                assert(seen[k].pane.pane_id != pane.pane_id);
            }
            lemma_laid_out_still(put, seen, st.tab, d, d1);
            lemma_remembers_still(seen, w, d, d1);
        }
    }
    if st.phase is SinglePane && !d.attached(pane) {
        lemma_laid_out_more(put, seen, st.tab, d1, action, here);
        lemma_remembers_more(seen, w, d1, here);
    }
    if st.phase is SingleAssigned || st.phase is SplitPane {
        assert forall|id: TmuxPaneId| mentions(w.layout, id) implies (#[trigger] is_attached(
            d1.tabs,
            w.window_id,
            id,
        ) <==> named_in(more, id)) by {
            law_attaching_adds_one(
                d.tabs,
                pane.window_id,
                pane.pane_id,
                st.tab,
                w.window_id,
                id,
            );
            assert(named_in(more, id) <==> named_in(seen, id) || id == pane.pane_id);
            assert(is_attached(d.tabs, w.window_id, id) <==> named_in(seen, id));
        }
        if st.phase is SingleAssigned {
            lemma_laid_out_still(put, more, st.tab, d, d1);
            lemma_remembers_still(more, w, d, d1);
        }
    }
    if st.phase is SingleAdded {
        assert(st.layout == w.layout.len() - 1);
        assert(with_step(new_panes(w.layout, st.layout), st.at_layout(), 0) == seen);
        assert(window_panes(w) == more);
    }
    if st.phase is SplitActive {
        lemma_laid_out_more(put, seen, st.tab, d, action, here);
        lemma_remembers_more(seen, w, d, here);
    }
}

/// One reply at another window changes nothing for a window.
pub proof fn lemma_elsewhere(run: Run, reply: SyncReply, i: int)
    requires
        run.sound(),
        run.sync.fits(reply),
        in_session(run.sync),
        0 <= i < run.sync.windows.len(),
        apart(run.sync.windows, run.sync.session, i),
        at_some_window(run.sync.phase) ==> run.sync.window != i,
    ensures
        ({
            let w = run.sync.windows[i];
            let next = run.next(reply);
            &&& none_shown(w, run.domain) ==> none_shown(w, next.domain)
            &&& !makes_one_of(next.action, w.layout)
            &&& forall|id: TmuxPaneId| #[trigger]
                mentions(w.layout, id) ==> next.domain.remotes[id] == run.domain.remotes[id]
        }),
{
    let st = run.sync;
    let d = run.domain;
    let next = run.next(reply);
    let w = st.windows[i];
    let pane = st.at_pane();
    lemma_puts_and_makes(run, reply);
    if next.action is CreatePane {
        lemma_here_is_named(next.sync);
        assert(mentions(st.windows[st.window].layout, next.sync.at_pane().pane_id));
    }
    if st.phase is SinglePane || st.phase is SingleAssigned || st.phase is SplitPane {
        lemma_here_is_named(st);
        assert(mentions(st.windows[st.window].layout, pane.pane_id));
        assert(!mentions(w.layout, pane.pane_id));
        if none_shown(w, d) {
            assert forall|id: TmuxPaneId| mentions(w.layout, id) implies !#[trigger] is_attached(
                next.domain.tabs,
                w.window_id,
                id,
            ) by {
                law_attaching_adds_one(
                    d.tabs,
                    pane.window_id,
                    pane.pane_id,
                    st.tab,
                    w.window_id,
                    id,
                );
            }
        }
    } else {
        assert(next.domain.tabs == d.tabs);
        assert(next.domain.remotes == d.remotes);
    }
}

// ---------------------------------------------------------------------------
// Whole runs
// ---------------------------------------------------------------------------

/// Where a run stands as to the panes of a window.
pub proof fn lemma_pane_story(windows: Seq<WindowView>, d: DomainView, replies: Seq<SyncReply>, i: int)
    requires
        d.wf(),
        fitting(begun(windows, d), replies),
        candid(begun(windows, d), replies),
        tab_names(begun(windows, d), replies).no_duplicates(),
        ({
            let run = after(begun(windows, d), replies);
            run.sync.phase is Over ==> run.action is Finish
        }),
        0 <= i < windows.len(),
        windows[i].session_id == d.current_session(),
        regular(windows[i]),
        apart(windows, d.current_session(), i),
        none_shown(windows[i], d),
    ensures
        pane_story(begun(windows, d), replies, i),
    decreases replies.len(),
{
    let first = begun(windows, d);
    let session = d.current_session();
    let w = windows[i];
    if replies.len() == 0 {
        reveal(Seq::filter);
        assert(seq![first.action].drop_last() =~= seq![]);
        assert(made_of(seq![first.action].drop_last(), w.layout).len() == 0);
    } else {
        let front = replies.drop_last();
        let reply = replies.last();
        let before = after(first, front);
        let run = after(first, replies);
        let st = before.sync;
        let next = run.sync;
        let done = actions(first, front);
        let more = actions(first, replies);
        let old_names = tab_names(first, front);
        let names = tab_names(first, replies);
        let at = of_session(windows.take(i), session).len() as int;
        assert(more == done.push(run.action));
        lemma_run(windows, d, front);
        lemma_run(windows, d, replies);
        lemma_told(windows, d, front);
        lemma_told(windows, d, replies);
        assert(old_names.no_duplicates()) by {
            assert forall|j: int, k: int|
                0 <= j < old_names.len() && 0 <= k < old_names.len() && j != k implies old_names[j]
                != old_names[k] by {
                assert(names[j] == old_names[j] && names[k] == old_names[k]);
            }
        }
        lemma_pane_story(windows, d, front, i);
        lemma_puts_and_makes(before, reply);
        law_reply_keeps_what_is_shown(before, reply);
        if let Some(on) = onward(st, reply) {
            lemma_proceed_stays(on, before.domain);
        }
        if let Some((_, from)) = entering(st, reply) {
            lemma_next_window(windows, session, from);
        }
        assert forall|k: int, tab: TabId|
            0 <= k < more.len() && #[trigger] puts_into(more[k], tab) implies names.contains(
            tab,
        ) by {
            if k < done.len() {
                assert(puts_into(done[k], tab));
                let n = choose|n: int| 0 <= n < old_names.len() && old_names[n] == tab;
                assert(names[n] == tab);
            } else {
                assert(names[names.len() - 1] == tab);
            }
        }
        if at_some_window(st.phase) && st.window == i {
            if st.phase is Tab {
                lemma_story_begins(windows, d, replies, i);
            } else if st.phase is TabAdded {
                lemma_filters(done, run.action, w.layout, st.tab);
            } else if let Some(on) = onward(st, reply) {
                lemma_named_push(panes_before(st), pane_here(st));
                lemma_here_is_named(st);
                assert(st.at_pane().window_id == w.window_id) by {
                    assert(w.layout[st.layout].panes()[st.pane].window_id == w.window_id);
                }
                assert(on.at_window() == w);
                lemma_work_goes_on(on, before.domain, done);
            } else {
                lemma_work_step(before, reply, done);
            }
        } else {
            lemma_elsewhere(before, reply, i);
            let gone = !(st.phase is Gui || (at_some_window(st.phase) && st.window < i));
            let tab = old_names[at];
            lemma_filters(done, run.action, w.layout, tab);
            if gone {
                law_window_panes_are_each_once(w);
                if puts_into(run.action, tab) {
                    lemma_one_more(windows, session, st.window);
                    lemma_stands_behind(windows, session, i, st.window);
                    assert(old_names[old_names.len() - 1] == old_names[at]);
                }
                let panes = window_panes(w);
                assert forall|k: int| 0 <= k < panes.len() implies run.domain.remotes[(
                #[trigger] panes[k]).pane.pane_id] == before.domain.remotes[panes[k].pane.pane_id] by {
                    assert(named_in(panes, panes[k].pane.pane_id));
                    assert(mentions(w.layout, panes[k].pane.pane_id));
                }
                lemma_laid_out_still(put_into(done, tab), panes, tab, before.domain, run.domain);
                lemma_remembers_still(panes, w, before.domain, run.domain);
                assert(names[at] == tab);
            }
        }
    }
}

/// The tab of a window is named: nothing is put there yet.
proof fn lemma_story_begins(
    windows: Seq<WindowView>,
    d: DomainView,
    replies: Seq<SyncReply>,
    i: int,
)
    requires
        d.wf(),
        fitting(begun(windows, d), replies),
        tab_names(begun(windows, d), replies).no_duplicates(),
        0 <= i < windows.len(),
        windows[i].session_id == d.current_session(),
        regular(windows[i]),
        replies.len() > 0,
        ({
            let before = after(begun(windows, d), replies.drop_last());
            &&& before.sync.phase is Tab
            &&& before.sync.window == i
        }),
        pane_story(begun(windows, d), replies.drop_last(), i),
    ensures
        ({
            let names = tab_names(begun(windows, d), replies);
            let run = after(begun(windows, d), replies);
            let at = of_session(windows.take(i), d.current_session()).len() as int;
            &&& names.len() == at + 1
            &&& names[at] == run.sync.tab
            &&& at_work(run, actions(begun(windows, d), replies))
        }),
{
    let first = begun(windows, d);
    let session = d.current_session();
    let w = windows[i];
    let front = replies.drop_last();
    let before = after(first, front);
    let st = before.sync;
    let done = actions(first, front);
    let old_names = tab_names(first, front);
    let names = tab_names(first, replies);
    let tab = replies.last()->Name_0;
    lemma_run(windows, d, front);
    lemma_told(windows, d, front);
    lemma_one_more(windows, session, i);
    assert(names == old_names.push(tab));
    let on = st.in_tab(tab);
    assert(on.at_window() == w);
    lemma_proceed_stays(on, before.domain);
    assert forall|k: int| 0 <= k < done.len() implies !#[trigger] puts_into(done[k], tab) by {
        if puts_into(done[k], tab) {
            let n = choose|n: int| 0 <= n < old_names.len() && old_names[n] == tab;
            assert(names[n] == names[names.len() - 1]);
        }
    }
    lemma_nothing_put(done, tab);
    assert(panes_before(on) =~= seq![]);
    assert(made_of(done, w.layout) =~= creations(seq![]));
    lemma_work_goes_on(on, before.domain, done);
}

/// However the actions turn out, as long as the multiplexer gives its tabs different names and says
/// rightly whether a tab has an active pane: once all is done, take a window of the session as tmux
/// lists it, none of whose panes was shown or is a pane of another window. Each of its panes was
/// made once, in the order in which its layout names them, and they were put into the tab of that
/// window in that order, each once and nothing else: the first, and one that is a layout step by
/// itself, was given the tab, and every other was split off as the step that names it first wants
/// it. The names under which they were put there are those by which the domain knows them, and the
/// domain keeps of each what the layout says of it there.
pub proof fn law_finished_run_puts_each_pane_once(
    windows: Seq<WindowView>,
    d: DomainView,
    replies: Seq<SyncReply>,
    i: int,
)
    requires
        d.wf(),
        fitting(begun(windows, d), replies),
        candid(begun(windows, d), replies),
        tab_names(begun(windows, d), replies).no_duplicates(),
        after(begun(windows, d), replies).action is Finish,
        0 <= i < windows.len(),
        windows[i].session_id == d.current_session(),
        regular(windows[i]),
        apart(windows, d.current_session(), i),
        none_shown(windows[i], d),
    ensures
        ({
            let first = begun(windows, d);
            let done = actions(first, replies);
            let names = tab_names(first, replies);
            let at = of_session(windows.take(i), d.current_session()).len() as int;
            let panes = window_panes(windows[i]);
            &&& at < names.len()
            &&& made_of(done, windows[i].layout) == creations(panes)
            &&& laid_out(
                put_into(done, names[at]),
                panes,
                names[at],
                after(first, replies).domain,
            )
            &&& forall|k: int|
                0 <= k < panes.len() ==> after(first, replies).domain.remotes.contains_key(
                    (#[trigger] panes[k]).pane.pane_id,
                )
            &&& remembers_all(after(first, replies).domain, panes, windows[i])
            &&& distinct(panes)
            &&& forall|id: TmuxPaneId| #[trigger]
                named_in(panes, id) <==> mentions(windows[i].layout, id)
        }),
{
    let w = windows[i];
    let panes = window_panes(w);
    let shown = after(begun(windows, d), replies).domain;
    lemma_run(windows, d, replies);
    lemma_pane_story(windows, d, replies, i);
    law_window_panes_are_each_once(w);
    assert(window_shown(w, shown));
    assert forall|k: int| 0 <= k < panes.len() implies shown.remotes.contains_key(
        (#[trigger] panes[k]).pane.pane_id,
    ) by {
        let id = panes[k].pane.pane_id;
        assert(named_in(panes, id));
        assert(mentions(w.layout, id));
        let l = choose|l: int|
            0 <= l < w.layout.len() && lists((#[trigger] w.layout[l]).panes(), id);
        let step = w.layout[l];
        let p = choose|p: int| 0 <= p < step.panes().len() && (#[trigger] step.panes()[p]).pane_id
            == id;
        assert(reached(w.layout, l));
        assert(step_shown(step, step.panes().len() as int, shown));
        lemma_attached_is_known(shown, step.panes()[p]);
    }
}

} // verus!
