//! In which order a showing of listed windows leaves the panes in a tab.

use crate::domain::{DomainView, PaneId, TabId};
use crate::items::WindowView;
use crate::layout_tree::{
    all_divided, law_divided_window_has_divisions, lists, mentions, well_formed, window_steps,
};
use crate::listing_laws::{regular, TreeWindow};
use crate::pane_order::{
    after_steps, divided, grows, ids_of, law_steps_give_the_order_of_the_layout, leaves,
    lemma_index_is, lemma_placed_ids, step_grows, step_ids,
};
use crate::pane_run_laws::{
    apart, at_work, candid, lemma_elsewhere, lemma_here_is_named, lemma_new_panes, lemma_pane_story,
    lemma_with_step, named_in, new_panes, none_shown, pane_story, panes_before, put_into,
};
use crate::place_run_laws::{lemma_awaited, lemma_proceed_awaits, pane_names};
use crate::window_run_laws::{
    actions, at_some_window, lemma_one_more, lemma_stands_behind, lemma_told, of_session, tab_names,
};
use crate::window_sync::{lemma_next_window, Phase, SyncAction, SyncReply, SyncView};
use crate::window_sync_laws::{
    after, begun, entering, fitting, law_reply_keeps_what_is_shown, lemma_proceed_stays, lemma_run,
    onward, Run,
};
use vstd::prelude::*;

verus! {

// ---------------------------------------------------------------------------
// A tab whose panes are in order
// ---------------------------------------------------------------------------

/// The panes in a tab, in order: a tab that is made is empty, a pane that is given the tab is the
/// only one, and a pane that is split off comes before the one that is divided.
pub open spec fn tab_panes(first: Run, replies: Seq<SyncReply>, tab: TabId) -> Seq<PaneId>
    decreases replies.len(),
{
    if replies.len() == 0 {
        seq![]
    } else {
        let before = tab_panes(first, replies.drop_last(), tab);
        match (after(first, replies.drop_last()).action, replies.last()) {
            (SyncAction::CreateTab { .. }, SyncReply::Name(name)) => if name == tab {
                seq![]
            } else {
                before
            },
            (SyncAction::AssignPane { tab_id, local_pane_id }, _) => if tab_id == tab {
                seq![local_pane_id]
            } else {
                before
            },
            (
                SyncAction::SplitPane { tab_id, local_pane_id, index, request: _ },
                SyncReply::Place(Some(_)),
            ) => if tab_id == tab {
                before.insert(index as int, local_pane_id)
            } else {
                before
            },
            _ => before,
        }
    }
}

/// Whether places are reported as they are in such tabs: the active pane is one that is there, a
/// pane that is split off is where the one that is divided was, and a pane is found where it is.
pub open spec fn orderly(first: Run, replies: Seq<SyncReply>) -> bool
    decreases replies.len(),
{
    replies.len() == 0 || (orderly(first, replies.drop_last()) && {
        let front = replies.drop_last();
        match (after(first, front).action, replies.last()) {
            (SyncAction::QueryActiveIndex { tab_id }, SyncReply::Name(place)) => place < tab_panes(
                first,
                front,
                tab_id,
            ).len(),
            (
                SyncAction::SplitPane { tab_id, local_pane_id: _, index, request: _ },
                SyncReply::Place(Some(place)),
            ) => index < tab_panes(first, front, tab_id).len() && place == index,
            (
                SyncAction::FindPane { tab_id, local_pane_id },
                SyncReply::Place(Some(place)),
            ) => place < tab_panes(first, front, tab_id).len() && tab_panes(
                first,
                front,
                tab_id,
            )[place as int] == local_pane_id,
            _ => true,
        }
    })
}

// ---------------------------------------------------------------------------
// The order in a window
// ---------------------------------------------------------------------------

/// The pane that takes up a window at first.
pub open spec fn first_pane(ids: Seq<Seq<u64>>) -> Seq<u64> {
    seq![ids[0][0]]
}

/// The panes in order, once the first steps and the first panes of the next one are dealt with.
pub open spec fn order_at(ids: Seq<Seq<u64>>, l: int, p: int) -> Seq<u64> {
    if l >= ids.len() {
        after_steps(first_pane(ids), ids)
    } else if p <= 0 {
        if l <= 0 {
            seq![]
        } else {
            after_steps(first_pane(ids), ids.take(l))
        }
    } else {
        divided(after_steps(first_pane(ids), ids.take(l)), ids[l].take(p))
    }
}

/// Where the pane that a step divides stands by then.
pub open spec fn place_at(ids: Seq<Seq<u64>>, l: int, p: int) -> int {
    after_steps(first_pane(ids), ids.take(l)).index_of(ids[l][0]) + p - 1
}

/// The names of panes by which the domain knows them.
pub open spec fn locals(list: Seq<u64>, d: DomainView) -> Seq<PaneId> {
    list.map_values(|id: u64| d.remotes[id].local_pane_id)
}

/// Whether the panes of a window can be put in order: it has one, each step but the first divides a
/// pane that is there, and only a window that is not divided has a single pane as a step.
pub open spec fn steady(w: WindowView) -> bool {
    let ids = ids_of(w.layout);
    &&& ids.len() >= 1
    &&& ids[0].len() >= 1
    &&& grows(first_pane(ids), ids)
    &&& all_divided(w.layout) || (w.layout.len() == 1 && w.layout[0] is SinglePane)
}

proof fn lemma_divided(list: Seq<u64>, ids: Seq<u64>)
    requires
        list.no_duplicates(),
        step_grows(list, ids),
    ensures
        divided(list, ids).no_duplicates(),
        forall|x: u64| #[trigger]
            divided(list, ids).contains(x) <==> list.contains(x) || ids.contains(x),
{
    let q = list.index_of(ids[0]);
    assert(list.contains(ids[0]));
    assert(0 <= q < list.len() && list[q] == ids[0]);
    let more = divided(list, ids);
    let n = ids.len() - 1;
    assert forall|x: u64| #[trigger] more.contains(x) <==> list.contains(x) || ids.contains(x) by {
        if list.contains(x) {
            let k = choose|k: int| 0 <= k < list.len() && list[k] == x;
            let at = if k < q {
                k
            } else {
                k + n
            };
            assert(more[at] == x);
        }
        if ids.contains(x) {
            let k = choose|k: int| 0 <= k < ids.len() && ids[k] == x;
            if k > 0 {
                assert(more[q + k - 1] == x);
            } else {
                assert(more[q + n] == x);
            }
        }
        if more.contains(x) {
            let k = choose|k: int| 0 <= k < more.len() && more[k] == x;
            if k < q {
                assert(list[k] == x);
            } else if k < q + n {
                assert(ids[k - q + 1] == x);
            } else {
                assert(list[k - n] == x);
            }
        }
    }
    assert forall|i: int, j: int|
        0 <= i < more.len() && 0 <= j < more.len() && i != j implies more[i] != more[j] by {
        let in_new = |k: int| q <= k < q + n;
        let old = |k: int|
            if k < q {
                k
            } else {
                k - n
            };
        if in_new(i) && in_new(j) {
            assert(ids[i - q + 1] != ids[j - q + 1]);
        } else if in_new(i) {
            assert(list[old(j)] == more[j]);
            assert(!list.contains(ids[i - q + 1]));
        } else if in_new(j) {
            assert(list[old(i)] == more[i]);
            assert(!list.contains(ids[j - q + 1]));
        } else {
            assert(list[old(i)] == more[i] && list[old(j)] == more[j]);
        }
    }
}

/// Whether one of the first steps has a pane.
pub open spec fn in_steps(ids: Seq<Seq<u64>>, count: int, x: u64) -> bool {
    exists|k: int| 0 <= k < count && (#[trigger] ids[k]).contains(x)
}

proof fn lemma_in_steps(ids: Seq<Seq<u64>>, l: int, x: u64)
    requires
        0 <= l < ids.len(),
    ensures
        in_steps(ids, l + 1, x) <==> in_steps(ids, l, x) || ids[l].contains(x),
{
    if in_steps(ids, l + 1, x) {
        let k = choose|k: int| 0 <= k < l + 1 && (#[trigger] ids[k]).contains(x);
        assert(k < l || ids[l].contains(x));
    }
}

proof fn lemma_after_steps(list: Seq<u64>, ids: Seq<Seq<u64>>, l: int)
    requires
        list.no_duplicates(),
        grows(list, ids),
        0 <= l <= ids.len(),
    ensures
        after_steps(list, ids.take(l)).no_duplicates(),
        forall|x: u64| #[trigger]
            after_steps(list, ids.take(l)).contains(x) <==> list.contains(x) || in_steps(ids, l, x),
        l < ids.len() ==> after_steps(list, ids.take(l + 1)) == divided(
            after_steps(list, ids.take(l)),
            ids[l],
        ),
    decreases l,
{
    if l < ids.len() {
        assert(ids.take(l + 1).drop_last() =~= ids.take(l));
        assert(ids.take(l + 1).last() == ids[l]);
    }
    if l == 0 {
        assert(ids.take(0) =~= seq![]);
    } else {
        lemma_after_steps(list, ids, l - 1);
        let before = after_steps(list, ids.take(l - 1));
        assert(step_grows(before, ids[l - 1]));
        lemma_divided(before, ids[l - 1]);
        let later = after_steps(list, ids.take(l));
        assert(later == divided(before, ids[l - 1]));
        assert forall|x: u64| #[trigger] later.contains(x) <==> list.contains(x) || in_steps(
            ids,
            l,
            x,
        ) by {
            lemma_in_steps(ids, l - 1, x);
        }
    }
}

/// The first panes of a step are a step.
proof fn lemma_step_begins(list: Seq<u64>, ids: Seq<u64>, p: int)
    requires
        step_grows(list, ids),
        1 <= p <= ids.len(),
    ensures
        step_grows(list, ids.take(p)),
        p == ids.len() ==> ids.take(p) == ids,
{
    let some = ids.take(p);
    assert forall|k: int| 1 <= k < some.len() implies !list.contains(#[trigger] some[k]) by {
        assert(!list.contains(ids[k]));
    }
    assert forall|j: int, k: int| 0 <= j < some.len() && 0 <= k < some.len() && j != k implies some[j]
        != some[k] by {
        assert(ids[j] != ids[k]);
    }
    if p == ids.len() {
        assert(some =~= ids);
    }
}

/// What is in order by then, and where the pane that is divided stands.
proof fn lemma_order_at(ids: Seq<Seq<u64>>, l: int, p: int)
    requires
        ids.len() >= 1,
        ids[0].len() >= 1,
        grows(first_pane(ids), ids),
        0 <= l < ids.len(),
        0 <= p <= ids[l].len(),
    ensures
        order_at(ids, l, p).no_duplicates(),
        p == 1 ==> order_at(ids, l, p) == after_steps(first_pane(ids), ids.take(l)),
        p >= 1 ==> 0 <= place_at(ids, l, p) < order_at(ids, l, p).len() && order_at(ids, l, p)[
            place_at(ids, l, p)
        ] == ids[l][0],
        1 <= p < ids[l].len() ==> order_at(ids, l, p + 1) == order_at(ids, l, p).insert(
            place_at(ids, l, p),
            ids[l][p],
        ),
        p == ids[l].len() ==> order_at(ids, l + 1, 0) == order_at(ids, l, p),
        l > 0 || p > 0 ==> (forall|x: u64| #[trigger]
            order_at(ids, l, p).contains(x) <==> in_steps(ids, l, x) || ids[l].take(p).contains(x)),
        ids[l].len() >= 1,
        l > 0 ==> after_steps(first_pane(ids), ids.take(l)).contains(ids[l][0]),
        forall|k: int|
            1 <= k < ids[l].len() ==> !after_steps(first_pane(ids), ids.take(l)).contains(
                #[trigger] ids[l][k],
            ),
        l == 0 ==> after_steps(first_pane(ids), ids.take(l)) == first_pane(ids),
{
    let start = first_pane(ids);
    lemma_after_steps(start, ids, l);
    let base = after_steps(start, ids.take(l));
    assert(step_grows(base, ids[l]));
    assert(base.contains(ids[l][0]));
    let q = base.index_of(ids[l][0]);
    assert(0 <= q < base.len() && base[q] == ids[l][0]);
    if l == 0 {
        assert(ids.take(0) =~= seq![]);
    }
    if p >= 1 {
        lemma_step_begins(base, ids[l], p);
        lemma_divided(base, ids[l].take(p));
        assert(ids[l].take(p)[0] == ids[l][0]);
        if p == 1 {
            assert(order_at(ids, l, p) =~= base);
        }
        if p < ids[l].len() {
            assert(ids[l].take(p + 1)[0] == ids[l][0]);
            assert(order_at(ids, l, p + 1) =~= order_at(ids, l, p).insert(
                place_at(ids, l, p),
                ids[l][p],
            ));
        }
    }
    if p == ids[l].len() {
        assert(order_at(ids, l, p) == after_steps(start, ids.take(l + 1)));
        if l + 1 == ids.len() {
            assert(ids.take(l + 1) =~= ids);
        }
    }
    if l > 0 || p > 0 {
        assert forall|x: u64| #[trigger]
            order_at(ids, l, p).contains(x) <==> in_steps(ids, l, x) || ids[l].take(p).contains(x) by {
            assert(base.contains(x) <==> start.contains(x) || in_steps(ids, l, x));
            if p >= 1 {
                assert(order_at(ids, l, p).contains(x) <==> base.contains(x) || ids[l].take(
                    p,
                ).contains(x));
            }
            if start.contains(x) {
                assert(x == ids[0][0]);
                if l > 0 {
                    assert(ids[0].contains(x));
                } else {
                    assert(ids[0].take(p)[0] == x);
                }
            }
        }
    }
}

/// The panes before the one at hand are those in order.
proof fn lemma_before_is_in_order(st: SyncView)
    requires
        st.in_layout(),
        steady(st.at_window()),
    ensures
        ({
            let ids = ids_of(st.at_window().layout);
            let list = order_at(ids, st.layout, st.pane);
            &&& forall|x: u64| #[trigger] named_in(panes_before(st), x) <==> list.contains(x)
            &&& ids[st.layout].len() == st.at_layout().panes().len()
            &&& ids[st.layout][st.pane] == st.at_pane().pane_id
        }),
{
    let layout = st.at_window().layout;
    let ids = ids_of(layout);
    let l = st.layout;
    let p = st.pane;
    let step = st.at_layout();
    lemma_new_panes(layout, l);
    lemma_with_step(new_panes(layout, l), step, p);
    lemma_order_at(ids, l, p);
    let list = order_at(ids, l, p);
    assert(ids[l] == step_ids(step));
    assert forall|x: u64| #[trigger] named_in(panes_before(st), x) <==> list.contains(x) by {
        assert(named_in(panes_before(st), x) <==> mentions(layout.take(l), x) || lists(
            step.panes().take(p),
            x,
        ));
        if mentions(layout.take(l), x) {
            let k = choose|k: int| 0 <= k < l && lists((#[trigger] layout.take(l)[k]).panes(), x);
            let panes = layout[k].panes();
            let j = choose|j: int| 0 <= j < panes.len() && (#[trigger] panes[j]).pane_id == x;
            assert(ids[k][j] == x);
            assert(ids[k].contains(x));
        }
        if lists(step.panes().take(p), x) {
            let j = choose|j: int|
                0 <= j < p && (#[trigger] step.panes().take(p)[j]).pane_id == x;
            assert(ids[l].take(p)[j] == x);
        }
        if in_steps(ids, l, x) {
            let k = choose|k: int| 0 <= k < l && (#[trigger] ids[k]).contains(x);
            let j = choose|j: int| 0 <= j < ids[k].len() && ids[k][j] == x;
            assert(layout[k].panes()[j].pane_id == x);
            assert(lists(layout.take(l)[k].panes(), x));
        }
        if ids[l].take(p).contains(x) {
            let j = choose|j: int| 0 <= j < p && ids[l].take(p)[j] == x;
            assert(step.panes().take(p)[j].pane_id == x);
        }
        if l == 0 && p == 0 {
            assert(layout.take(0).len() == 0);
        }
    }
}

// ---------------------------------------------------------------------------
// How far a run has come
// ---------------------------------------------------------------------------

/// Where a run stands at a window, as to the order of the panes in its tab.
pub open spec fn in_order(run: Run, panes: Seq<PaneId>, names: Seq<PaneId>) -> bool {
    let st = run.sync;
    let d = run.domain;
    let ids = ids_of(st.at_window().layout);
    let list = order_at(ids, st.layout, st.pane);
    let local = d.remotes[st.at_pane().pane_id].local_pane_id;
    let at_first = st.layout == 0 && st.pane == 0;
    &&& panes.no_duplicates()
    &&& forall|k: int| 0 <= k < panes.len() ==> names.contains(#[trigger] panes[k])
    &&& match st.phase {
        Phase::TabAdded => panes == locals(after_steps(first_pane(ids), ids), d),
        Phase::SinglePane => panes.len() == 0,
        Phase::SingleAssigned => panes.len() == 0 && local == st.local && names.contains(st.local)
            && run.action == (SyncAction::AssignPane { tab_id: st.tab, local_pane_id: st.local }),
        Phase::SingleAdded => panes == seq![st.local] && local == st.local,
        Phase::Finding => panes == locals(list, d) && local == st.local && run.action
            == (SyncAction::FindPane { tab_id: st.tab, local_pane_id: st.local }),
        Phase::SplitPane => panes == locals(list, d) && (st.pane >= 1 ==> st.split_index
            == place_at(ids, st.layout, st.pane)),
        Phase::SplitAdded | Phase::SplitActive | Phase::Splitting => {
            &&& panes == locals(list, d)
            &&& st.pane >= 1 ==> st.split_index == place_at(ids, st.layout, st.pane)
            &&& local == st.local
            &&& names.contains(st.local)
            &&& !panes.contains(st.local)
            &&& st.phase is Splitting ==> st.pane >= 1 && (run.action matches SyncAction::SplitPane {
                tab_id,
                local_pane_id,
                index,
                request: _,
            } && tab_id == st.tab && local_pane_id == st.local && index == st.split_index)
        },
        Phase::SplitAssigned => at_first && panes.len() == 0 && local == st.local && names.contains(
            st.local,
        ) && run.action == (SyncAction::AssignPane { tab_id: st.tab, local_pane_id: st.local }),
        Phase::SplitIndexed => at_first && panes == seq![st.local] && local == st.local
            && run.action == (SyncAction::QueryActiveIndex { tab_id: st.tab }),
        _ => false,
    }
}

/// Where a run stands as to the order of the panes in the tab of a window.
pub open spec fn order_story(first: Run, replies: Seq<SyncReply>, i: int) -> bool {
    let run = after(first, replies);
    let st = run.sync;
    let ids = ids_of(st.windows[i].layout);
    let at = of_session(st.windows.take(i), st.session).len() as int;
    if st.phase is Gui || (at_some_window(st.phase) && (st.window < i || (st.window == i
        && st.phase is Tab))) {
        true
    } else if at_some_window(st.phase) && st.window == i {
        in_order(run, tab_panes(first, replies, st.tab), pane_names(first, replies))
    } else {
        tab_panes(first, replies, tab_names(first, replies)[at]) == locals(
            after_steps(first_pane(ids), ids),
            run.domain,
        )
    }
}

/// What is put into a tab is put into the one at hand.
proof fn lemma_puts_at_hand(windows: Seq<WindowView>, d: DomainView, replies: Seq<SyncReply>)
    ensures
        ({
            let run = after(begun(windows, d), replies);
            match run.action {
                SyncAction::AssignPane { tab_id, local_pane_id: _ } => tab_id == run.sync.tab,
                SyncAction::SplitPane { tab_id, .. } => tab_id == run.sync.tab,
                _ => true,
            }
        }),
{
    let first = begun(windows, d);
    if replies.len() > 0 {
        let before = after(first, replies.drop_last());
        if let Some(on) = onward(before.sync, replies.last()) {
            lemma_proceed_stays(on, before.domain);
            lemma_proceed_awaits(on, before.domain);
        }
    }
}

/// The cursor a run goes on with, and the one it stops at.
proof fn lemma_proceed_order(st: SyncView, d: DomainView)
    requires
        st.in_window(),
        steady(st.at_window()),
        0 <= st.layout <= st.at_window().layout.len(),
        0 <= st.pane,
        st.layout < st.at_window().layout.len() ==> st.pane <= st.at_layout().panes().len() && (
        st.at_layout() is SinglePane ==> st.pane == 0),
    ensures
        ({
            let ids = ids_of(st.at_window().layout);
            let (next, action) = st.proceed(d);
            let list = order_at(ids, st.layout, st.pane);
            &&& next.at_window() == st.at_window()
            &&& next.tab == st.tab
            &&& next.split_index == st.split_index
            &&& match next.phase {
                Phase::TabAdded => list == after_steps(first_pane(ids), ids),
                _ => {
                    &&& next.in_layout()
                    &&& order_at(ids, next.layout, next.pane) == list
                    &&& next.pane >= 1 ==> next.layout == st.layout && next.pane == st.pane
                    &&& next.phase is Finding ==> next.local
                        == d.remotes[next.at_pane().pane_id].local_pane_id && action
                        == (SyncAction::FindPane { tab_id: st.tab, local_pane_id: next.local })
                },
            }
        }),
    decreases st.at_window().layout.len() - st.layout,
{
    let layout = st.at_window().layout;
    let ids = ids_of(layout);
    let next = SyncView { layout: st.layout + 1, pane: 0, ..st };
    assert(next.at_window() == st.at_window());
    if st.layout < layout.len() {
        assert(ids[st.layout] == step_ids(st.at_layout()));
        lemma_order_at(ids, st.layout, st.pane);
        if !(st.at_layout() is SinglePane) && st.pane >= st.at_layout().panes().len() {
            lemma_proceed_order(next, d);
        }
    }
}

/// Names that the domain keeps stay the same.
proof fn lemma_locals_still(list: Seq<u64>, d: DomainView, later: DomainView)
    requires
        forall|x: u64| #[trigger] list.contains(x) ==> later.remotes[x] == d.remotes[x],
    ensures
        locals(list, later) == locals(list, d),
{
    assert forall|k: int| 0 <= k < list.len() implies #[trigger] locals(list, later)[k] == locals(
        list,
        d,
    )[k] by {
        assert(list.contains(list[k]));
    }
    assert(locals(list, later) =~= locals(list, d));
}

/// A window that is not divided has its one pane in order.
proof fn lemma_single_order(w: WindowView)
    requires
        steady(w),
        w.layout.len() == 1,
        w.layout[0] is SinglePane,
    ensures
        ({
            let ids = ids_of(w.layout);
            after_steps(first_pane(ids), ids) == seq![w.layout[0].panes()[0].pane_id]
        }),
{
    let ids = ids_of(w.layout);
    assert(ids[0] == step_ids(w.layout[0]));
    lemma_order_at(ids, 0, 1);
}

/// One reply at a window that has its tab, where the panes are gone on with.
proof fn lemma_order_moves(
    windows: Seq<WindowView>,
    d: DomainView,
    replies: Seq<SyncReply>,
    i: int,
)
    requires
        d.wf(),
        fitting(begun(windows, d), replies),
        candid(begun(windows, d), replies),
        orderly(begun(windows, d), replies),
        pane_names(begun(windows, d), replies).no_duplicates(),
        0 <= i < windows.len(),
        regular(windows[i]),
        steady(windows[i]),
        replies.len() > 0,
        ({
            let before = after(begun(windows, d), replies.drop_last());
            &&& at_some_window(before.sync.phase)
            &&& before.sync.window == i
            &&& !(before.sync.phase is TabAdded)
            &&& onward(before.sync, replies.last()) is Some
        }),
        !(after(begun(windows, d), replies).sync.phase is Over),
        pane_story(begun(windows, d), replies.drop_last(), i),
        pane_story(begun(windows, d), replies, i),
        order_story(begun(windows, d), replies.drop_last(), i),
    ensures
        order_story(begun(windows, d), replies, i),
{
    let first = begun(windows, d);
    let front = replies.drop_last();
    let reply = replies.last();
    let before = after(first, front);
    let run = after(first, replies);
    let st = before.sync;
    let w = windows[i];
    let ids = ids_of(w.layout);
    let old_names = pane_names(first, front);
    let names = pane_names(first, replies);
    let panes = tab_panes(first, replies, run.sync.tab);
    lemma_run(windows, d, front);
    lemma_awaited(first, front);
    let on = onward(st, reply)->0;
    lemma_proceed_stays(on, before.domain);
    lemma_proceed_awaits(on, before.domain);
    assert(on.at_window() == w);
    assert(names == old_names);
    if !(st.phase is Tab) {
        lemma_before_is_in_order(st);
        lemma_moves_on(windows, d, replies, i);
    } else {
        assert(panes =~= seq![]);
        assert(order_at(ids, 0, 0) =~= seq![]);
        assert(locals(order_at(ids, 0, 0), before.domain) =~= seq![]);
    }
    lemma_proceed_order(on, before.domain);
    assert(panes == locals(order_at(ids, on.layout, on.pane), before.domain));
    lemma_run(windows, d, replies);
    let next = run.sync;
    if next.phase is SinglePane {
        assert(w.layout[next.layout] is SinglePane);
        assert(w.layout.len() == 1);
        assert(st.phase is Tab);
    }
    assert(in_order(run, panes, names));
}

/// One reply at a window that has its tab, where the same pane stays at hand.
#[verifier::rlimit(50)]
proof fn lemma_order_stays(
    windows: Seq<WindowView>,
    d: DomainView,
    replies: Seq<SyncReply>,
    i: int,
)
    requires
        d.wf(),
        fitting(begun(windows, d), replies),
        candid(begun(windows, d), replies),
        orderly(begun(windows, d), replies),
        pane_names(begun(windows, d), replies).no_duplicates(),
        0 <= i < windows.len(),
        regular(windows[i]),
        steady(windows[i]),
        replies.len() > 0,
        ({
            let before = after(begun(windows, d), replies.drop_last());
            &&& at_some_window(before.sync.phase)
            &&& before.sync.window == i
            &&& !(before.sync.phase is TabAdded)
            &&& onward(before.sync, replies.last()) is None
        }),
        !(after(begun(windows, d), replies).sync.phase is Over),
        pane_story(begun(windows, d), replies.drop_last(), i),
        pane_story(begun(windows, d), replies, i),
        order_story(begun(windows, d), replies.drop_last(), i),
    ensures
        order_story(begun(windows, d), replies, i),
{
    let first = begun(windows, d);
    let front = replies.drop_last();
    let reply = replies.last();
    let before = after(first, front);
    let run = after(first, replies);
    let st = before.sync;
    let w = windows[i];
    let ids = ids_of(w.layout);
    let done = actions(first, front);
    let old_names = pane_names(first, front);
    let names = pane_names(first, replies);
    let old_panes = tab_panes(first, front, st.tab);
    let panes = tab_panes(first, replies, run.sync.tab);
    lemma_run(windows, d, front);
    lemma_awaited(first, front);
    assert(at_work(before, done));
    assert(in_order(before, old_panes, old_names));
    lemma_before_is_in_order(st);
    lemma_here_is_named(st);
    lemma_order_at(ids, st.layout, st.pane);
    let list = order_at(ids, st.layout, st.pane);
    let pane = st.at_pane();
    assert(pane.window_id == w.window_id) by {
        assert(w.layout[st.layout].panes()[st.pane].window_id == w.window_id);
    }
    assert(run.sync.at_window() == w);
    if st.phase is SinglePane || st.phase is SplitPane {
        let local = reply->Name_0;
        assert(names == old_names.push(local));
        assert(names[names.len() - 1] == local);
        assert(panes == old_panes);
        assert forall|k: int| 0 <= k < panes.len() implies names.contains(#[trigger] panes[k]) by {
            let n = choose|n: int| 0 <= n < old_names.len() && old_names[n] == panes[k];
            assert(names[n] == panes[k]);
        }
        assert(!old_panes.contains(local)) by {
            if old_panes.contains(local) {
                let k = choose|k: int| 0 <= k < old_panes.len() && old_panes[k] == local;
                assert(old_names.contains(old_panes[k]));
                let n = choose|n: int| 0 <= n < old_names.len() && old_names[n] == local;
                assert(names[n] == names[names.len() - 1]);
            }
        }
        if st.phase is SplitPane {
            assert(!named_in(panes_before(st), pane.pane_id));
            assert forall|x: u64| #[trigger] list.contains(x) implies run.domain.remotes[x]
                == before.domain.remotes[x] by {
                assert(x != pane.pane_id);
            }
            lemma_locals_still(list, before.domain, run.domain);
        }
    } else {
        assert(names == old_names);
        assert(run.domain.remotes == before.domain.remotes);
        if st.phase is SplitActive {
            lemma_first_or_not(st);
            assert(put_into(done, st.tab).len() == panes_before(st).len());
            lemma_locals_still(list, before.domain, run.domain);
        } else if st.phase is SingleAdded {
            assert(w.layout.len() == 1);
            lemma_single_order(w);
            assert(panes =~= locals(seq![pane.pane_id], run.domain));
        } else if st.phase is SplitAdded {
            lemma_locals_still(list, before.domain, run.domain);
        }
    }
    assert(in_order(run, panes, names));
}

/// No pane comes before the first one of a window, and some pane before any other.
proof fn lemma_first_or_not(st: SyncView)
    requires
        st.in_layout(),
        steady(st.at_window()),
    ensures
        panes_before(st).len() == 0 <==> st.layout == 0 && st.pane == 0,
{
    let ids = ids_of(st.at_window().layout);
    lemma_before_is_in_order(st);
    lemma_order_at(ids, st.layout, st.pane);
    if st.layout == 0 && st.pane == 0 {
        if panes_before(st).len() > 0 {
            let x = panes_before(st)[0].pane.pane_id;
            assert(named_in(panes_before(st), x));
        }
    } else if st.pane > 0 {
        assert(ids[st.layout].take(st.pane)[0] == ids[st.layout][0]);
        assert(ids[st.layout].take(st.pane).contains(ids[st.layout][0]));
        assert(order_at(ids, st.layout, st.pane).contains(ids[st.layout][0]));
        assert(named_in(panes_before(st), ids[st.layout][0]));
    } else {
        assert(order_at(ids, st.layout, st.pane).contains(ids[st.layout][0]));
        assert(named_in(panes_before(st), ids[st.layout][0]));
    }
}

/// One pane further, the panes in the tab are in order.
proof fn lemma_moves_on(windows: Seq<WindowView>, d: DomainView, replies: Seq<SyncReply>, i: int)
    requires
        d.wf(),
        fitting(begun(windows, d), replies),
        orderly(begun(windows, d), replies),
        0 <= i < windows.len(),
        regular(windows[i]),
        steady(windows[i]),
        replies.len() > 0,
        ({
            let before = after(begun(windows, d), replies.drop_last());
            &&& at_some_window(before.sync.phase)
            &&& before.sync.window == i
            &&& !(before.sync.phase is Tab)
            &&& onward(before.sync, replies.last()) is Some
        }),
        pane_story(begun(windows, d), replies.drop_last(), i),
        order_story(begun(windows, d), replies.drop_last(), i),
    ensures
        ({
            let before = after(begun(windows, d), replies.drop_last());
            let st = before.sync;
            let on = onward(st, replies.last())->0;
            let ids = ids_of(windows[i].layout);
            let panes = tab_panes(begun(windows, d), replies, st.tab);
            let old_names = pane_names(begun(windows, d), replies.drop_last());
            &&& panes == locals(order_at(ids, st.layout, st.pane + 1), before.domain)
            &&& panes.no_duplicates()
            &&& forall|k: int| 0 <= k < panes.len() ==> old_names.contains(#[trigger] panes[k])
            &&& on.split_index == place_at(ids, st.layout, st.pane + 1)
        }),
{
    let first = begun(windows, d);
    let front = replies.drop_last();
    let reply = replies.last();
    let before = after(first, front);
    let st = before.sync;
    let w = windows[i];
    let ids = ids_of(w.layout);
    let l = st.layout;
    let p = st.pane;
    let id = st.at_pane().pane_id;
    let old_panes = tab_panes(first, front, st.tab);
    let panes = tab_panes(first, replies, st.tab);
    lemma_run(windows, d, front);
    lemma_before_is_in_order(st);
    lemma_order_at(ids, l, p);
    lemma_order_at(ids, l, p + 1);
    let base = after_steps(first_pane(ids), ids.take(l));
    lemma_after_steps(first_pane(ids), ids, l);
    match st.phase {
        Phase::SplitIndexed => {
            lemma_index_is(first_pane(ids), ids[0][0], 0);
            assert(panes =~= locals(order_at(ids, l, p + 1), before.domain));
        },
        Phase::Splitting => {
            let at = place_at(ids, l, p);
            let list = order_at(ids, l, p);
            assert(old_panes == locals(list, before.domain));
            assert(panes == old_panes.insert(at, st.local));
            assert(panes =~= locals(list.insert(at, ids[l][p]), before.domain));
            assert forall|j: int, k: int|
                0 <= j < panes.len() && 0 <= k < panes.len() && j != k implies panes[j]
                != panes[k] by {
                let x = if j < at {
                    j
                } else {
                    j - 1
                };
                let y = if k < at {
                    k
                } else {
                    k - 1
                };
                if j == at {
                    assert(panes[k] == old_panes[y]);
                } else if k == at {
                    assert(panes[j] == old_panes[x]);
                } else {
                    assert(panes[j] == old_panes[x] && panes[k] == old_panes[y]);
                }
            }
            assert forall|k: int| 0 <= k < panes.len() implies pane_names(first, front).contains(
                #[trigger] panes[k],
            ) by {
                if k < at {
                    assert(panes[k] == old_panes[k]);
                } else if k > at {
                    assert(panes[k] == old_panes[k - 1]);
                }
            }
        },
        _ => {
            assert(st.phase is Finding);
            let list = order_at(ids, l, p);
            assert(st.at_pane().window_id == w.window_id) by {
                assert(w.layout[l].panes()[p].window_id == w.window_id);
            }
            lemma_here_is_named(st);
            assert(named_in(panes_before(st), id));
            assert(list.contains(id));
            if p >= 1 {
                assert(!base.contains(ids[l][p]));
                if ids[l].take(p).contains(id) {
                    let k = choose|k: int| 0 <= k < p && ids[l].take(p)[k] == id;
                    assert(step_grows(base, ids[l]));
                    assert(ids[l][k] != ids[l][p]);
                }
            }
            assert(p == 0 && l > 0);
            let q = base.index_of(ids[l][0]);
            assert(base[q] == ids[l][0]);
            assert(old_panes == locals(base, before.domain));
            assert(old_panes[q] == st.local);
            assert(panes == old_panes);
        },
    }
}

/// Names that differ in the end differ all along.
proof fn lemma_names_differ(first: Run, replies: Seq<SyncReply>)
    requires
        replies.len() > 0,
    ensures
        tab_names(first, replies).no_duplicates() ==> tab_names(
            first,
            replies.drop_last(),
        ).no_duplicates(),
        pane_names(first, replies).no_duplicates() ==> pane_names(
            first,
            replies.drop_last(),
        ).no_duplicates(),
{
    let front = replies.drop_last();
    let tabs = tab_names(first, replies);
    let old_tabs = tab_names(first, front);
    if tabs.no_duplicates() {
        assert forall|j: int, k: int|
            0 <= j < old_tabs.len() && 0 <= k < old_tabs.len() && j != k implies old_tabs[j]
            != old_tabs[k] by {
            assert(tabs[j] == old_tabs[j] && tabs[k] == old_tabs[k]);
        }
    }
    let panes = pane_names(first, replies);
    let old_panes = pane_names(first, front);
    if panes.no_duplicates() {
        assert forall|j: int, k: int|
            0 <= j < old_panes.len() && 0 <= k < old_panes.len() && j != k implies old_panes[j]
            != old_panes[k] by {
            assert(panes[j] == old_panes[j] && panes[k] == old_panes[k]);
        }
    }
}

/// One reply behind a window leaves its tab alone.
proof fn lemma_order_kept(windows: Seq<WindowView>, d: DomainView, replies: Seq<SyncReply>, i: int)
    requires
        d.wf(),
        fitting(begun(windows, d), replies),
        tab_names(begun(windows, d), replies).no_duplicates(),
        0 <= i < windows.len(),
        windows[i].session_id == d.current_session(),
        steady(windows[i]),
        apart(windows, d.current_session(), i),
        replies.len() > 0,
        ({
            let before = after(begun(windows, d), replies.drop_last());
            &&& !(before.sync.phase is Gui)
            &&& !(before.sync.phase is Over)
            &&& at_some_window(before.sync.phase) ==> before.sync.window > i
        }),
        of_session(windows.take(i), d.current_session()).len() < tab_names(
            begun(windows, d),
            replies.drop_last(),
        ).len(),
    ensures
        ({
            let first = begun(windows, d);
            let ids = ids_of(windows[i].layout);
            let list = after_steps(first_pane(ids), ids);
            let at = of_session(windows.take(i), d.current_session()).len() as int;
            let front = replies.drop_last();
            &&& tab_names(first, replies)[at] == tab_names(first, front)[at]
            &&& tab_panes(first, replies, tab_names(first, replies)[at]) == tab_panes(
                first,
                front,
                tab_names(first, front)[at],
            )
            &&& locals(list, after(first, replies).domain) == locals(
                list,
                after(first, front).domain,
            )
        }),
{
    let first = begun(windows, d);
    let session = d.current_session();
    let w = windows[i];
    let ids = ids_of(w.layout);
    let front = replies.drop_last();
    let reply = replies.last();
    let before = after(first, front);
    let run = after(first, replies);
    let st = before.sync;
    let old_names = tab_names(first, front);
    let names = tab_names(first, replies);
    let at = of_session(windows.take(i), session).len() as int;
    lemma_run(windows, d, front);
    lemma_told(windows, d, front);
    lemma_names_differ(first, replies);
    lemma_awaited(first, front);
    lemma_elsewhere(before, reply, i);
    lemma_puts_at_hand(windows, d, front);
    if at_some_window(st.phase) && !(st.phase is Tab) && !(st.phase is TabAdded) {
        lemma_one_more(windows, session, st.window);
        lemma_stands_behind(windows, session, i, st.window);
        assert(old_names[old_names.len() - 1] != old_names[at]);
    }
    if st.phase is Tab {
        assert(names[names.len() - 1] != names[at]);
    }
    lemma_all_mentioned(w);
    lemma_locals_still(after_steps(first_pane(ids), ids), before.domain, run.domain);
}

/// Where a run stands as to the order of the panes in the tab of a window.
proof fn lemma_order_story(windows: Seq<WindowView>, d: DomainView, replies: Seq<SyncReply>, i: int)
    requires
        d.wf(),
        fitting(begun(windows, d), replies),
        candid(begun(windows, d), replies),
        orderly(begun(windows, d), replies),
        tab_names(begun(windows, d), replies).no_duplicates(),
        pane_names(begun(windows, d), replies).no_duplicates(),
        ({
            let run = after(begun(windows, d), replies);
            run.sync.phase is Over ==> run.action is Finish
        }),
        0 <= i < windows.len(),
        windows[i].session_id == d.current_session(),
        regular(windows[i]),
        steady(windows[i]),
        apart(windows, d.current_session(), i),
        none_shown(windows[i], d),
    ensures
        order_story(begun(windows, d), replies, i),
    decreases replies.len(),
{
    let first = begun(windows, d);
    if replies.len() > 0 {
        let front = replies.drop_last();
        let st = after(first, front).sync;
        lemma_run(windows, d, front);
        lemma_run(windows, d, replies);
        lemma_names_differ(first, replies);
        lemma_order_story(windows, d, front, i);
        lemma_pane_story(windows, d, front, i);
        lemma_pane_story(windows, d, replies, i);
        if st.phase is Gui || (at_some_window(st.phase) && st.window < i) {
            lemma_not_yet(windows, d, replies, i);
        } else if at_some_window(st.phase) && st.window == i {
            lemma_now(windows, d, replies, i);
        } else {
            lemma_order_kept(windows, d, replies, i);
            lemma_stays_behind(windows, d, replies, i);
        }
    }
}

/// What is in order in a window is named by its layout.
proof fn lemma_all_mentioned(w: WindowView)
    requires
        steady(w),
    ensures
        forall|x: u64| #[trigger]
            after_steps(first_pane(ids_of(w.layout)), ids_of(w.layout)).contains(x) ==> mentions(
                w.layout,
                x,
            ),
{
    let ids = ids_of(w.layout);
    let n = ids.len() as int;
    assert(ids.take(n) =~= ids);
    lemma_after_steps(first_pane(ids), ids, n);
    assert forall|x: u64| #[trigger] after_steps(first_pane(ids), ids).contains(x) implies mentions(
        w.layout,
        x,
    ) by {
        if first_pane(ids).contains(x) {
            assert(ids[0][0] == x);
            assert(ids[0].contains(x));
        }
        assert(in_steps(ids, n, x));
        let k = choose|k: int| 0 <= k < n && (#[trigger] ids[k]).contains(x);
        let j = choose|j: int| 0 <= j < ids[k].len() && ids[k][j] == x;
        assert(w.layout[k].panes()[j].pane_id == x);
        assert(lists(w.layout[k].panes(), x));
    }
}

/// Before a window, the next one is at most that one.
proof fn lemma_not_yet(windows: Seq<WindowView>, d: DomainView, replies: Seq<SyncReply>, i: int)
    requires
        d.wf(),
        fitting(begun(windows, d), replies),
        0 <= i < windows.len(),
        windows[i].session_id == d.current_session(),
        replies.len() > 0,
        ({
            let st = after(begun(windows, d), replies.drop_last()).sync;
            st.phase is Gui || (at_some_window(st.phase) && st.window < i)
        }),
        ({
            let run = after(begun(windows, d), replies);
            run.sync.phase is Over ==> run.action is Finish
        }),
    ensures
        order_story(begun(windows, d), replies, i),
{
    let first = begun(windows, d);
    let before = after(first, replies.drop_last());
    let st = before.sync;
    let reply = replies.last();
    lemma_run(windows, d, replies.drop_last());
    law_reply_keeps_what_is_shown(before, reply);
    if let Some(on) = onward(st, reply) {
        lemma_proceed_stays(on, before.domain);
    }
    if let Some((_, from)) = entering(st, reply) {
        lemma_next_window(windows, d.current_session(), from);
    }
}

/// At a window.
proof fn lemma_now(windows: Seq<WindowView>, d: DomainView, replies: Seq<SyncReply>, i: int)
    requires
        d.wf(),
        fitting(begun(windows, d), replies),
        candid(begun(windows, d), replies),
        orderly(begun(windows, d), replies),
        pane_names(begun(windows, d), replies).no_duplicates(),
        ({
            let run = after(begun(windows, d), replies);
            run.sync.phase is Over ==> run.action is Finish
        }),
        0 <= i < windows.len(),
        windows[i].session_id == d.current_session(),
        regular(windows[i]),
        steady(windows[i]),
        replies.len() > 0,
        ({
            let st = after(begun(windows, d), replies.drop_last()).sync;
            at_some_window(st.phase) && st.window == i
        }),
        pane_story(begun(windows, d), replies.drop_last(), i),
        pane_story(begun(windows, d), replies, i),
        order_story(begun(windows, d), replies.drop_last(), i),
    ensures
        order_story(begun(windows, d), replies, i),
{
    let first = begun(windows, d);
    let before = after(first, replies.drop_last());
    let st = before.sync;
    let reply = replies.last();
    lemma_run(windows, d, replies.drop_last());
    law_reply_keeps_what_is_shown(before, reply);
    if st.phase is TabAdded {
        lemma_awaited(first, replies.drop_last());
        lemma_next_window(windows, d.current_session(), st.window + 1);
    } else if onward(st, reply) is Some {
        lemma_order_moves(windows, d, replies, i);
    } else {
        lemma_order_stays(windows, d, replies, i);
    }
}

/// Behind a window, a run stays behind it.
proof fn lemma_stays_behind(windows: Seq<WindowView>, d: DomainView, replies: Seq<SyncReply>, i: int)
    requires
        d.wf(),
        fitting(begun(windows, d), replies),
        0 <= i < windows.len(),
        replies.len() > 0,
        ({
            let st = after(begun(windows, d), replies.drop_last()).sync;
            !(st.phase is Gui) && (at_some_window(st.phase) ==> st.window > i)
        }),
    ensures
        ({
            let st = after(begun(windows, d), replies).sync;
            !(st.phase is Gui) && (at_some_window(st.phase) ==> st.window > i)
        }),
{
    let before = after(begun(windows, d), replies.drop_last());
    let st = before.sync;
    let reply = replies.last();
    lemma_run(windows, d, replies.drop_last());
    if let Some(on) = onward(st, reply) {
        lemma_proceed_stays(on, before.domain);
    }
    if let Some((_, from)) = entering(st, reply) {
        lemma_next_window(windows, d.current_session(), from);
    }
}

/// However the actions turn out, in a multiplexer that gives its tabs and its panes different names,
/// keeps the panes of a tab in order, puts a pane that is split off before the one that is divided
/// and reports places rightly: once all is done, take a window of the session as tmux lists it, no
/// pane of which stands in it twice, was shown or is a pane of another window. Its tab holds its
/// panes in the order in which the layout string lists them.
pub proof fn law_finished_tab_is_in_the_order_of_the_layout(
    trees: Seq<TreeWindow>,
    d: DomainView,
    replies: Seq<SyncReply>,
    i: int,
)
    requires
        d.wf(),
        0 <= i < trees.len(),
        trees[i].session_id == d.current_session(),
        well_formed(trees[i].cell),
        leaves(trees[i].cell).no_duplicates(),
        ({
            let windows = trees.map_values(|w: TreeWindow| w.item());
            let first = begun(windows, d);
            &&& apart(windows, d.current_session(), i)
            &&& none_shown(windows[i], d)
            &&& fitting(first, replies)
            &&& candid(first, replies)
            &&& orderly(first, replies)
            &&& tab_names(first, replies).no_duplicates()
            &&& pane_names(first, replies).no_duplicates()
            &&& after(first, replies).action is Finish
        }),
    ensures
        ({
            let windows = trees.map_values(|w: TreeWindow| w.item());
            let first = begun(windows, d);
            let at = of_session(windows.take(i), d.current_session()).len() as int;
            let later = after(first, replies).domain;
            let list = leaves(trees[i].cell);
            let panes = tab_panes(first, replies, tab_names(first, replies)[at]);
            &&& panes.len() == list.len()
            &&& forall|k: int|
                0 <= k < list.len() ==> #[trigger] panes[k] == later.remotes[list[k]].local_pane_id
        }),
{
    let windows = trees.map_values(|w: TreeWindow| w.item());
    let tree = trees[i];
    let w = windows[i];
    assert(w == tree.item());
    law_steps_give_the_order_of_the_layout(tree.cell);
    lemma_placed_ids(window_steps(tree.cell), tree.session_id, tree.window_id);
    let bare = window_steps(tree.cell);
    assert forall|l: int| 0 <= l < bare.len() implies #[trigger] w.layout[l] == bare[l].placed(
        tree.session_id,
        tree.window_id,
    ) by {}
    if tree.cell is Split {
        law_divided_window_has_divisions(tree.cell);
        assert forall|l: int| 0 <= l < w.layout.len() implies !(#[trigger] w.layout[l]
            is SinglePane) by {
            assert(!(bare[l] is SinglePane));
        }
    }
    assert(steady(w));
    assert forall|l: int, p: int|
        0 <= l < w.layout.len() && 0 <= p < w.layout[l].panes().len() implies (
    #[trigger] w.layout[l].panes()[p]).window_id == w.window_id by {
        assert(w.layout[l] == bare[l].placed(tree.session_id, tree.window_id));
    }
    assert(regular(w));
    lemma_run(windows, d, replies);
    lemma_order_story(windows, d, replies, i);
}

} // verus!
