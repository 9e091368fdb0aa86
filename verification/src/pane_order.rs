//! The order of the panes in a window that is divided step by step.

use crate::items::{LayoutView, PaneItem};
use crate::layout_tree::{
    all_well_formed, division, last_id, steps, steps_inside, well_formed, window_steps, Cell,
};
use crate::listing::placed_layouts;
use vstd::prelude::*;

verus! {

/// The numbers of the panes of a cell, in the order in which the layout string lists them.
pub open spec fn leaves(cell: Cell) -> Seq<u64>
    decreases cell,
{
    match cell {
        Cell::Pane(_, id) => seq![id],
        Cell::Split(_, _, inner) => leaves_inside(inner),
    }
}

pub open spec fn leaves_inside(cells: Seq<Cell>) -> Seq<u64>
    decreases cells,
{
    if cells.len() == 0 {
        seq![]
    } else {
        leaves(cells[0]) + leaves_inside(cells.skip(1))
    }
}

/// The numbers of the panes of a layout step.
pub open spec fn step_ids(step: LayoutView) -> Seq<u64> {
    step.panes().map_values(|p: PaneItem| p.pane_id)
}

pub open spec fn ids_of(layouts: Seq<LayoutView>) -> Seq<Seq<u64>> {
    layouts.map_values(|l: LayoutView| step_ids(l))
}

/// Panes in order, once the first pane of a step is divided: its other panes come before it.
pub open spec fn divided(list: Seq<u64>, ids: Seq<u64>) -> Seq<u64> {
    let q = list.index_of(ids[0]);
    list.take(q) + ids.skip(1) + list.skip(q)
}

/// Panes in order, once all steps are done.
pub open spec fn after_steps(list: Seq<u64>, ids: Seq<Seq<u64>>) -> Seq<u64>
    decreases ids.len(),
{
    if ids.len() == 0 {
        list
    } else {
        divided(after_steps(list, ids.drop_last()), ids.last())
    }
}

/// Whether a step divides a pane that is there, into that one and new ones.
pub open spec fn step_grows(list: Seq<u64>, ids: Seq<u64>) -> bool {
    &&& ids.len() >= 1
    &&& list.contains(ids[0])
    &&& forall|k: int| 1 <= k < ids.len() ==> !list.contains(#[trigger] ids[k])
    &&& ids.no_duplicates()
}

/// Whether each step divides a pane that is there by then, into that one and new ones.
pub open spec fn grows(list: Seq<u64>, ids: Seq<Seq<u64>>) -> bool {
    forall|l: int|
        0 <= l < ids.len() ==> step_grows(after_steps(list, ids.take(l)), #[trigger] ids[l])
}

// ---------------------------------------------------------------------------
// Steps one behind the other
// ---------------------------------------------------------------------------

proof fn lemma_after_concat(list: Seq<u64>, a: Seq<Seq<u64>>, b: Seq<Seq<u64>>)
    ensures
        after_steps(list, a + b) == after_steps(after_steps(list, a), b),
    decreases b.len(),
{
    if b.len() == 0 {
        assert(a + b =~= a);
    } else {
        lemma_after_concat(list, a, b.drop_last());
        assert((a + b).drop_last() =~= a + b.drop_last());
        assert((a + b).last() == b.last());
    }
}

proof fn lemma_grows_concat(list: Seq<u64>, a: Seq<Seq<u64>>, b: Seq<Seq<u64>>)
    requires
        grows(list, a),
        grows(after_steps(list, a), b),
    ensures
        grows(list, a + b),
{
    let ab = a + b;
    assert forall|l: int| 0 <= l < ab.len() implies step_grows(
        after_steps(list, ab.take(l)),
        #[trigger] ab[l],
    ) by {
        if l < a.len() {
            assert(ab.take(l) =~= a.take(l));
            assert(ab[l] == a[l]);
        } else {
            let k = l - a.len();
            assert(ab.take(l) =~= a + b.take(k));
            lemma_after_concat(list, a, b.take(k));
            assert(ab[l] == b[k]);
        }
    }
}

/// A pane is found where it is, if it is nowhere else.
pub proof fn lemma_index_is(list: Seq<u64>, id: u64, q: int)
    requires
        0 <= q < list.len(),
        list[q] == id,
        list.no_duplicates(),
    ensures
        list.index_of(id) == q,
{
    let f = list.index_of(id);
    assert(0 <= f < list.len() && list[f] == id);
}

// ---------------------------------------------------------------------------
// Trees
// ---------------------------------------------------------------------------

/// The last pane of each cell.
pub open spec fn last_ids(cells: Seq<Cell>) -> Seq<u64> {
    cells.map_values(|c: Cell| last_id(c))
}

/// Leaving something out of a list makes nothing in it the same.
proof fn lemma_leave_out(a: Seq<u64>, x: Seq<u64>, b: Seq<u64>)
    requires
        (a + x + b).no_duplicates(),
    ensures
        (a + b).no_duplicates(),
{
    let all = a + x + b;
    let ab = a + b;
    assert forall|i: int, j: int|
        0 <= i < ab.len() && 0 <= j < ab.len() && i != j implies ab[i] != ab[j] by {
        let p = if i < a.len() {
            i
        } else {
            i + x.len()
        };
        let q = if j < a.len() {
            j
        } else {
            j + x.len()
        };
        assert(all[p] == ab[i]);
        assert(all[q] == ab[j]);
    }
}

/// The last pane of a cell is listed last.
proof fn lemma_last_leaf(cell: Cell)
    requires
        well_formed(cell),
    ensures
        leaves(cell).len() > 0,
        leaves(cell).last() == last_id(cell),
    decreases cell, 0nat,
{
    if let Cell::Split(place, across, inner) = cell {
        lemma_last_leaf_inside(inner);
    }
}

proof fn lemma_last_leaf_inside(cells: Seq<Cell>)
    requires
        all_well_formed(cells),
        cells.len() > 0,
    ensures
        leaves_inside(cells).len() > 0,
        leaves_inside(cells).last() == last_id(cells[cells.len() - 1]),
    decreases cells, 1nat,
{
    lemma_last_leaf(cells[0]);
    if cells.len() > 1 {
        let tail = cells.skip(1);
        lemma_last_leaf_inside(tail);
        assert(tail[tail.len() - 1] == cells[cells.len() - 1]);
    } else {
        assert(leaves_inside(cells.skip(1)) =~= seq![]);
        assert(leaves_inside(cells) =~= leaves(cells[0]));
    }
}

/// Where no two panes have the same number, the last panes of the cells have different numbers too.
proof fn lemma_last_ids_differ(pre: Seq<u64>, cells: Seq<Cell>, post: Seq<u64>)
    requires
        all_well_formed(cells),
        (pre + leaves_inside(cells) + post).no_duplicates(),
    ensures
        (pre + last_ids(cells) + post).no_duplicates(),
    decreases cells,
{
    if cells.len() == 0 {
        assert(last_ids(cells) =~= leaves_inside(cells));
    } else {
        let tail = cells.skip(1);
        let c = cells[0];
        lemma_last_leaf(c);
        let before = leaves(c).drop_last();
        let more = pre.push(last_id(c));
        let rest = seq![last_id(c)] + leaves_inside(tail) + post;
        assert(pre + leaves_inside(cells) + post =~= pre + before + rest);
        lemma_leave_out(pre, before, rest);
        assert(pre + rest =~= more + leaves_inside(tail) + post);
        lemma_last_ids_differ(more, tail, post);
        assert(more + last_ids(tail) + post =~= pre + last_ids(cells) + post);
    }
}

proof fn lemma_ids_concat(a: Seq<LayoutView>, b: Seq<LayoutView>)
    ensures
        ids_of(a + b) == ids_of(a) + ids_of(b),
{
    assert(ids_of(a + b) =~= ids_of(a) + ids_of(b));
}

/// The step that divides a cell puts the last pane of each cell inside in the place of the cell.
proof fn lemma_division_order(pre: Seq<u64>, cell: Cell, post: Seq<u64>)
    requires
        well_formed(cell),
        cell is Split,
        (pre + leaves(cell) + post).no_duplicates(),
    ensures
        ({
            let ids = step_ids(division(cell, cell->Split_1, cell->Split_2));
            let list = pre + seq![last_id(cell)] + post;
            &&& step_grows(list, ids)
            &&& divided(list, ids) == pre + last_ids(cell->Split_2) + post
        }),
{
    let across = cell->Split_1;
    let inner = cell->Split_2;
    let list = pre + seq![last_id(cell)] + post;
    let ids = step_ids(division(cell, across, inner));
    let n = inner.len() as int;
    lemma_last_ids_differ(pre, inner, post);
    let all = pre + last_ids(inner) + post;
    assert(ids =~= seq![last_id(cell)] + last_ids(inner.drop_last()));
    let q = pre.len() as int;
    assert(last_ids(inner)[n - 1] == last_id(cell));
    assert forall|k: int| 0 <= k < n implies #[trigger] all[q + k] == last_ids(inner)[k] by {}
    assert(list.no_duplicates()) by {
        assert(all =~= pre + last_ids(inner).drop_last() + (seq![last_id(cell)] + post));
        lemma_leave_out(pre, last_ids(inner).drop_last(), seq![last_id(cell)] + post);
        assert(list =~= pre + (seq![last_id(cell)] + post));
    }
    assert(list[q] == last_id(cell));
    lemma_index_is(list, last_id(cell), q);
    assert(divided(list, ids) =~= all);
    assert forall|k: int| 1 <= k < ids.len() implies !list.contains(#[trigger] ids[k]) by {
        assert(ids[k] == all[q + k - 1]);
        if list.contains(ids[k]) {
            let j = choose|j: int| 0 <= j < list.len() && list[j] == ids[k];
            let at = if j < q {
                j
            } else {
                j + n - 1
            };
            assert(all[at] == list[j]);
        }
    }
    assert forall|j: int, k: int| 0 <= j < ids.len() && 0 <= k < ids.len() && j != k implies ids[j]
        != ids[k] by {
        let x = if j == 0 {
            q + n - 1
        } else {
            q + j - 1
        };
        let y = if k == 0 {
            q + n - 1
        } else {
            q + k - 1
        };
        assert(all[x] == ids[j]);
        assert(all[y] == ids[k]);
    }
}

proof fn lemma_tree_order(pre: Seq<u64>, cell: Cell, post: Seq<u64>)
    requires
        well_formed(cell),
        (pre + leaves(cell) + post).no_duplicates(),
    ensures
        after_steps(pre + seq![last_id(cell)] + post, ids_of(steps(cell))) == pre + leaves(cell)
            + post,
        grows(pre + seq![last_id(cell)] + post, ids_of(steps(cell))),
    decreases cell, 0nat,
{
    let list = pre + seq![last_id(cell)] + post;
    match cell {
        Cell::Pane(_, _) => {
            assert(ids_of(steps(cell)) =~= seq![]);
        },
        Cell::Split(place, across, inner) => {
            let first = seq![division(cell, across, inner)];
            let ids = ids_of(first);
            lemma_division_order(pre, cell, post);
            lemma_inside_order(pre, inner, post);
            lemma_ids_concat(first, steps_inside(inner));
            assert(ids.drop_last() =~= seq![]);
            assert(after_steps(list, ids.drop_last()) == list);
            assert(after_steps(list, ids) == pre + last_ids(inner) + post);
            assert(ids.take(0) =~= seq![]);
            assert(after_steps(list, ids.take(0)) == list);
            lemma_after_concat(list, ids, ids_of(steps_inside(inner)));
            lemma_grows_concat(list, ids, ids_of(steps_inside(inner)));
        },
    }
}

proof fn lemma_inside_order(pre: Seq<u64>, cells: Seq<Cell>, post: Seq<u64>)
    requires
        all_well_formed(cells),
        (pre + leaves_inside(cells) + post).no_duplicates(),
    ensures
        after_steps(pre + last_ids(cells) + post, ids_of(steps_inside(cells))) == pre
            + leaves_inside(cells) + post,
        grows(pre + last_ids(cells) + post, ids_of(steps_inside(cells))),
    decreases cells, 1nat,
{
    if cells.len() == 0 {
        assert(ids_of(steps_inside(cells)) =~= seq![]);
        assert(last_ids(cells) =~= leaves_inside(cells));
    } else {
        let tail = cells.skip(1);
        let c = cells[0];
        let more = pre.push(last_id(c));
        let behind = leaves_inside(tail) + post;
        lemma_last_leaf(c);
        let before = leaves(c).drop_last();
        assert(pre + leaves_inside(cells) + post =~= pre + before + (seq![last_id(c)] + behind));
        lemma_leave_out(pre, before, seq![last_id(c)] + behind);
        assert(pre + (seq![last_id(c)] + behind) =~= more + leaves_inside(tail) + post);
        lemma_inside_order(more, tail, post);
        assert(more + last_ids(tail) + post =~= pre + last_ids(cells) + post);
        assert(pre + leaves_inside(cells) + post =~= pre + leaves(c) + behind);
        lemma_tree_order(pre, c, behind);
        assert(more + leaves_inside(tail) + post =~= pre + seq![last_id(c)] + behind);
        lemma_ids_concat(steps_inside(tail), steps(c));
        let list = pre + last_ids(cells) + post;
        lemma_after_concat(list, ids_of(steps_inside(tail)), ids_of(steps(c)));
        lemma_grows_concat(list, ids_of(steps_inside(tail)), ids_of(steps(c)));
    }
}

/// Dividing a window step by step, with the new panes of each step put before the pane that it
/// divides, gives its panes in the order in which the layout string lists them; and each step
/// divides a pane that is there by then, into that one and new ones.
pub proof fn law_steps_give_the_order_of_the_layout(cell: Cell)
    requires
        well_formed(cell),
        leaves(cell).no_duplicates(),
    ensures
        ({
            let ids = ids_of(window_steps(cell));
            &&& ids.len() >= 1
            &&& ids[0].len() >= 1
            &&& after_steps(seq![ids[0][0]], ids) == leaves(cell)
            &&& grows(seq![ids[0][0]], ids)
        }),
{
    let none = Seq::<u64>::empty();
    let only = seq![last_id(cell)];
    assert(none + leaves(cell) + none =~= leaves(cell));
    assert(none + only + none =~= only);
    lemma_tree_order(none, cell, none);
    let ids = ids_of(window_steps(cell));
    if cell is Pane {
        assert(step_ids(window_steps(cell)[0]) =~= only);
        assert(ids =~= seq![only]);
        assert(ids.drop_last() =~= seq![]);
        assert(ids.take(0) =~= seq![]);
        assert(after_steps(only, ids.drop_last()) == only);
        assert(after_steps(only, ids.take(0)) == only);
        lemma_index_is(only, last_id(cell), 0);
        assert(divided(only, only) =~= only);
    }
    assert(ids[0][0] == last_id(cell));
}

/// Placing panes in a window leaves their order alone.
pub proof fn lemma_placed_ids(layouts: Seq<LayoutView>, session_id: u64, window_id: u64)
    ensures
        ids_of(placed_layouts(layouts, session_id, window_id)) == ids_of(layouts),
{
    assert forall|l: int| 0 <= l < layouts.len() implies step_ids(
        (#[trigger] layouts[l]).placed(session_id, window_id),
    ) == step_ids(layouts[l]) by {
        assert(step_ids(layouts[l].placed(session_id, window_id)) =~= step_ids(layouts[l]));
    }
    assert(ids_of(placed_layouts(layouts, session_id, window_id)) =~= ids_of(layouts));
}

} // verus!
