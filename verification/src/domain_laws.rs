//! What holds of the bookkeeping of a tmux session.

use crate::commands::{CapturePane, Command};
use crate::domain::{
    captures, cells_size, first_tab, is_attached, lemma_first_tab, tab_of, with_pane, DomainView,
    PaneId, PaneSync, TabId, TabView,
};
use crate::items::{PaneItem, TmuxPaneId, TmuxSessionId, TmuxWindowId, WindowView};
use vstd::prelude::*;

verus! {

// ---------------------------------------------------------------------------
// Tabs
// ---------------------------------------------------------------------------

/// Whether a tab is that of a window, and shows a pane.
pub open spec fn tab_shows(tab: TabView, window_id: TmuxWindowId, pane_id: TmuxPaneId) -> bool {
    tab.tmux_window_id == window_id && tab.panes.contains(pane_id)
}

/// Where no window has two tabs, a pane is shown exactly if a tab of its window has it.
pub proof fn law_shown_pane_is_in_a_tab_of_its_window(
    d: DomainView,
    window_id: TmuxWindowId,
    pane_id: TmuxPaneId,
)
    requires
        d.wf(),
    ensures
        is_attached(d.tabs, window_id, pane_id) <==> exists|i: int|
            0 <= i < d.tabs.len() && tab_shows(#[trigger] d.tabs[i], window_id, pane_id),
{
    let f = first_tab(d.tabs, window_id, 0);
    lemma_first_tab(d.tabs, window_id, 0);
    if is_attached(d.tabs, window_id, pane_id) {
        assert(tab_shows(d.tabs[f], window_id, pane_id));
    }
    if exists|i: int| 0 <= i < d.tabs.len() && tab_shows(#[trigger] d.tabs[i], window_id, pane_id) {
        let i = choose|i: int|
            0 <= i < d.tabs.len() && tab_shows(#[trigger] d.tabs[i], window_id, pane_id);
        assert(d.tabs[i].tmux_window_id == window_id);
        assert(f == i);
    }
}

/// Showing a pane changes nothing of the tabs but that the tab of its window has it: a tab keeps its
/// name and its window, a tab of another window keeps its panes, and where the window has no tab
/// yet, the given one is added behind the others, with that pane alone.
pub proof fn law_showing_a_pane_keeps_the_tabs(
    tabs: Seq<TabView>,
    window_id: TmuxWindowId,
    pane_id: TmuxPaneId,
    tab_id: TabId,
)
    ensures
        ({
            let later = with_pane(tabs, window_id, pane_id, tab_id);
            let there = exists|i: int|
                0 <= i < tabs.len() && (#[trigger] tabs[i]).tmux_window_id == window_id;
            &&& later.len() == tabs.len() + (if there {
                0int
            } else {
                1
            })
            &&& forall|i: int|
                0 <= i < tabs.len() ==> (#[trigger] later[i]).tab_id == tabs[i].tab_id
                    && later[i].tmux_window_id == tabs[i].tmux_window_id && (
                tabs[i].tmux_window_id != window_id ==> later[i].panes == tabs[i].panes)
            &&& forall|i: int, id: TmuxPaneId|
                0 <= i < tabs.len() && tabs[i].tmux_window_id == window_id ==> (
                #[trigger] later[i].panes.contains(id) ==> id == pane_id || tabs[i].panes.contains(
                    id,
                ))
            &&& there ==> exists|i: int|
                0 <= i < tabs.len() && tab_shows(#[trigger] later[i], window_id, pane_id)
            &&& !there ==> later.last().tab_id == tab_id && later.last().tmux_window_id == window_id
                && forall|id: TmuxPaneId| #[trigger]
                later.last().panes.contains(id) <==> id == pane_id
        }),
{
    let later = with_pane(tabs, window_id, pane_id, tab_id);
    let f = first_tab(tabs, window_id, 0);
    lemma_first_tab(tabs, window_id, 0);
    if f < tabs.len() {
        assert(tabs[f].tmux_window_id == window_id);
        assert(tab_shows(later[f], window_id, pane_id));
    } else {
        assert forall|i: int| 0 <= i < tabs.len() implies (#[trigger] tabs[i]).tmux_window_id
            != window_id by {}
    }
}

// ---------------------------------------------------------------------------
// Known panes
// ---------------------------------------------------------------------------

/// What is kept of a pane is what tmux said of it, with the session and the window of the window it
/// was listed with and the name of the pane that shows it; and nothing else changes.
pub proof fn law_known_pane_is_as_listed(
    d: DomainView,
    window: WindowView,
    pane: PaneItem,
    local: PaneId,
)
    ensures
        ({
            let later = d.with_remote(window, pane, local);
            let kept = later.remotes[pane.pane_id];
            &&& later.remotes.contains_key(pane.pane_id)
            &&& kept.local_pane_id == local
            &&& kept.session_id == window.session_id
            &&& kept.window_id == window.window_id
            &&& kept.pane_id == pane.pane_id
            &&& kept.cursor_x == pane.cursor_x
            &&& kept.cursor_y == pane.cursor_y
            &&& kept.pane_width == pane.pane_width
            &&& kept.pane_height == pane.pane_height
            &&& kept.pane_left == pane.pane_left
            &&& kept.pane_top == pane.pane_top
            &&& forall|id: TmuxPaneId|
                id != pane.pane_id ==> (#[trigger] later.remotes.contains_key(id)
                    <==> d.remotes.contains_key(id)) && later.remotes[id] == d.remotes[id]
            &&& later.tabs == d.tabs
            &&& later.queue == d.queue
            &&& later.session == d.session
        }),
{
}

/// A size in cells has the width as its columns and the height as its rows, and no pixels.
pub proof fn law_size_is_width_by_height(width: u64, height: u64)
    ensures
        width <= usize::MAX ==> cells_size(width, height).cols == width,
        height <= usize::MAX ==> cells_size(width, height).rows == height,
        cells_size(width, height).pixel_width == 0,
        cells_size(width, height).pixel_height == 0,
        cells_size(width, height).dpi == 0,
{
}

// ---------------------------------------------------------------------------
// Listed panes
// ---------------------------------------------------------------------------

/// The session that is shown: the one that was set, and 0 where none was.
pub open spec fn is_session_of(d: DomainView, session: TmuxSessionId) -> bool {
    d.session == Some(session) || (d.session is None && session == 0)
}

/// The session that is shown is the one that was set, and 0 where none was.
pub proof fn law_session_is_the_one_set(d: DomainView, session: TmuxSessionId)
    ensures
        d.current_session() == session <==> is_session_of(d, session),
{
}

/// Whether a listed pane is to be brought up to date: it belongs to the session that is shown, and
/// a tab of its window has it.
pub open spec fn is_wanted(d: DomainView, pane: PaneItem) -> bool {
    is_session_of(d, pane.session_id) && exists|i: int|
        0 <= i < d.tabs.len() && tab_shows(#[trigger] d.tabs[i], pane.window_id, pane.pane_id)
}

/// The listed panes that are to be brought up to date, in order.
pub open spec fn wanted(d: DomainView, panes: Seq<PaneItem>) -> Seq<PaneItem> {
    panes.filter(|p: PaneItem| is_wanted(d, p))
}

/// Whether a pane is brought up to date as it should be: where it is active, it becomes the active
/// one of a tab of its window that has it, under the name by which it is known; else no pane does.
pub open spec fn synced_rightly(d: DomainView, pane: PaneItem, sync: PaneSync) -> bool {
    &&& sync.pane_id == pane.pane_id
    &&& match sync.activate {
        None => !pane.pane_active,
        Some((tab_id, local)) => {
            &&& pane.pane_active
            &&& exists|i: int|
                0 <= i < d.tabs.len() && tab_shows(
                    #[trigger] d.tabs[i],
                    pane.window_id,
                    pane.pane_id,
                ) && d.tabs[i].tab_id == tab_id
            &&& d.remotes.contains_key(pane.pane_id)
            &&& d.remotes[pane.pane_id].local_pane_id == local
        },
    }
}

proof fn lemma_synced_rightly(d: DomainView, pane: PaneItem)
    requires
        d.wf(),
        is_wanted(d, pane),
    ensures
        synced_rightly(d, pane, d.pane_sync(pane)),
{
    let i = choose|i: int|
        0 <= i < d.tabs.len() && tab_shows(#[trigger] d.tabs[i], pane.window_id, pane.pane_id);
    let f = first_tab(d.tabs, pane.window_id, 0);
    lemma_first_tab(d.tabs, pane.window_id, 0);
    assert(d.tabs[i].tmux_window_id == pane.window_id);
    assert(f == i);
    assert(tab_of(d.tabs, pane.window_id) == Some(d.tabs[i]));
    assert(d.tabs[i].panes.contains(pane.pane_id));
}

/// Of the listed panes, those of the session that is shown that a tab of their window has are
/// brought up to date, each of them and in order, and no others: an active one becomes the active
/// pane of that tab, and what each of them shows is asked for, behind the commands that wait.
/// Nothing else changes.
pub proof fn law_wanted_panes_are_synced(d: DomainView, panes: Seq<PaneItem>)
    requires
        d.wf(),
    ensures
        ({
            let syncs = d.pane_syncs(panes);
            let kept = wanted(d, panes);
            let later = d.with_captures(panes);
            &&& syncs.len() == kept.len()
            &&& forall|k: int|
                0 <= k < kept.len() ==> synced_rightly(d, kept[k], #[trigger] syncs[k])
            &&& later.queue.len() == d.queue.len() + kept.len()
            &&& forall|k: int| 0 <= k < d.queue.len() ==> #[trigger] later.queue[k] == d.queue[k]
            &&& forall|k: int|
                0 <= k < kept.len() ==> #[trigger] later.queue[d.queue.len() + k]
                    == Command::CapturePane(CapturePane(kept[k].pane_id))
            &&& later.tabs == d.tabs
            &&& later.remotes == d.remotes
            &&& later.session == d.session
        }),
{
    let chosen = |p: PaneItem| d.is_synced(p);
    let right = |p: PaneItem| is_wanted(d, p);
    assert forall|p: PaneItem| #[trigger] chosen(p) == right(p) by {
        law_session_is_the_one_set(d, p.session_id);
        law_shown_pane_is_in_a_tab_of_its_window(d, p.window_id, p.pane_id);
    }
    lemma_same_filter(panes, chosen, right);
    let kept = wanted(d, panes);
    let syncs = d.pane_syncs(panes);
    assert(syncs =~= kept.map_values(|p: PaneItem| d.pane_sync(p)));
    assert forall|k: int| 0 <= k < kept.len() implies synced_rightly(
        d,
        kept[k],
        #[trigger] syncs[k],
    ) by {
        panes.lemma_filter_pred(right, k);
        lemma_synced_rightly(d, kept[k]);
    }
    assert(captures(syncs).len() == kept.len());
    assert forall|k: int| 0 <= k < kept.len() implies #[trigger] d.with_captures(panes).queue[
        d.queue.len() + k
    ] == Command::CapturePane(CapturePane(kept[k].pane_id)) by {
        assert(synced_rightly(d, kept[k], syncs[k]));
        assert(captures(syncs)[k] == Command::CapturePane(CapturePane(syncs[k].pane_id)));
    }
}

proof fn lemma_same_filter(
    panes: Seq<PaneItem>,
    a: spec_fn(PaneItem) -> bool,
    b: spec_fn(PaneItem) -> bool,
)
    requires
        forall|p: PaneItem| #[trigger] a(p) == b(p),
    ensures
        panes.filter(a) == panes.filter(b),
    decreases panes.len(),
{
    reveal(Seq::filter);
    if panes.len() > 0 {
        lemma_same_filter(panes.drop_last(), a, b);
        assert(a(panes.last()) == b(panes.last()));
    }
}

} // verus!
