//! The layout steps of a divided window: their order, and how many there are.

use crate::items::{LayoutView, PaneItem};
use crate::layout_tree::{
    all_well_formed, division, head, heads, last_id, lemma_mentions_concat, lists, mentions, steps,
    steps_inside, well_formed, window_steps, Cell,
};
use vstd::prelude::*;

verus! {

// ---------------------------------------------------------------------------
// Their order
// ---------------------------------------------------------------------------

/// Whether the pane that each layout step divides, which is its first one, is among the given
/// panes or in an earlier step.
pub open spec fn builds_on(layouts: Seq<LayoutView>, given: Seq<PaneItem>) -> bool {
    forall|k: int|
        0 <= k < layouts.len() ==> (#[trigger] layouts[k]).panes().len() > 0 && (lists(
            given,
            layouts[k].panes()[0].pane_id,
        ) || mentions(layouts.take(k), layouts[k].panes()[0].pane_id))
}

proof fn lemma_builds_on_concat(a: Seq<LayoutView>, b: Seq<LayoutView>, given: Seq<PaneItem>)
    requires
        builds_on(a, given),
        builds_on(b, given),
    ensures
        builds_on(a + b, given),
{
    let ab = a + b;
    assert forall|k: int| 0 <= k < ab.len() implies (#[trigger] ab[k]).panes().len() > 0 && (lists(
        given,
        ab[k].panes()[0].pane_id,
    ) || mentions(ab.take(k), ab[k].panes()[0].pane_id)) by {
        let id = ab[k].panes()[0].pane_id;
        if k < a.len() {
            assert(a[k] == ab[k]);
            assert(ab.take(k) =~= a.take(k));
        } else {
            assert(b[k - a.len()] == ab[k]);
            assert(ab.take(k) =~= a + b.take(k - a.len()));
            lemma_mentions_concat(a, b.take(k - a.len()), id);
        }
    }
}

/// What builds on a step may come behind it.
proof fn lemma_builds_on_first(first: LayoutView, rest: Seq<LayoutView>, given: Seq<PaneItem>)
    requires
        first.panes().len() > 0,
        lists(given, first.panes()[0].pane_id),
        builds_on(rest, first.panes()),
    ensures
        builds_on(seq![first] + rest, given),
{
    let all = seq![first] + rest;
    assert forall|k: int| 0 <= k < all.len() implies (#[trigger] all[k]).panes().len() > 0 && (
    lists(given, all[k].panes()[0].pane_id) || mentions(
        all.take(k),
        all[k].panes()[0].pane_id,
    )) by {
        if k > 0 {
            let id = all[k].panes()[0].pane_id;
            assert(rest[k - 1] == all[k]);
            assert(all.take(k) =~= seq![first] + rest.take(k - 1));
            lemma_mentions_concat(seq![first], rest.take(k - 1), id);
            if lists(first.panes(), id) {
                assert(mentions(seq![first], id)) by {
                    assert(lists(seq![first][0].panes(), id));
                }
            }
        }
    }
}

proof fn lemma_steps_build_on(cell: Cell, given: Seq<PaneItem>)
    requires
        well_formed(cell),
        lists(given, last_id(cell)),
    ensures
        builds_on(steps(cell), given),
    decreases cell, 0nat,
{
    if let Cell::Split(place, across, inner) = cell {
        let first = division(cell, across, inner);
        let panes = first.panes();
        assert(panes[0].pane_id == last_id(cell));
        assert forall|i: int| 0 <= i < inner.len() implies lists(
            panes,
            last_id(#[trigger] inner[i]),
        ) by {
            if i < inner.len() - 1 {
                assert(panes[i + 1] == heads(inner.drop_last())[i]);
                assert(panes[i + 1].pane_id == last_id(inner[i]));
            } else {
                assert(panes[0].pane_id == last_id(inner[i]));
            }
        }
        lemma_steps_inside_build_on(inner, panes);
        lemma_builds_on_first(first, steps_inside(inner), given);
    }
}

proof fn lemma_steps_inside_build_on(cells: Seq<Cell>, given: Seq<PaneItem>)
    requires
        all_well_formed(cells),
        forall|i: int| 0 <= i < cells.len() ==> lists(given, last_id(#[trigger] cells[i])),
    ensures
        builds_on(steps_inside(cells), given),
    decreases cells, 1nat,
{
    if cells.len() > 0 {
        let tail = cells.skip(1);
        assert forall|i: int| 0 <= i < tail.len() implies lists(
            given,
            last_id(#[trigger] tail[i]),
        ) by {
            assert(tail[i] == cells[i + 1]);
        }
        assert(lists(given, last_id(cells[0])));
        lemma_steps_build_on(cells[0], given);
        lemma_steps_inside_build_on(tail, given);
        lemma_builds_on_concat(steps_inside(tail), steps(cells[0]), given);
    }
}

/// Panes are made from the outside in: each layout step but the first divides a pane that an
/// earlier step has made.
pub proof fn law_steps_build_on_earlier_ones(cell: Cell, k: int)
    requires
        well_formed(cell),
        0 < k < window_steps(cell).len(),
    ensures
        window_steps(cell)[k].panes().len() > 0,
        mentions(window_steps(cell).take(k), window_steps(cell)[k].panes()[0].pane_id),
{
    let all = window_steps(cell);
    let given = seq![head(cell)];
    assert(given[0].pane_id == last_id(cell));
    lemma_steps_build_on(cell, given);
    let id = all[k].panes()[0].pane_id;
    if lists(given, id) {
        let first = all.take(k)[0];
        assert(first.panes()[0].pane_id == id);
        assert(lists(first.panes(), id));
    }
}

// ---------------------------------------------------------------------------
// How many there are
// ---------------------------------------------------------------------------

/// How many panes stand in a cell.
pub open spec fn panes_in(cell: Cell) -> nat
    decreases cell,
{
    match cell {
        Cell::Pane(_, _) => 1,
        Cell::Split(_, _, inner) => panes_inside(inner),
    }
}

pub open spec fn panes_inside(cells: Seq<Cell>) -> nat
    decreases cells,
{
    if cells.len() == 0 {
        0
    } else {
        panes_in(cells[0]) + panes_inside(cells.skip(1))
    }
}

/// How many divided cells there are in a cell, itself included.
pub open spec fn divisions_in(cell: Cell) -> nat
    decreases cell,
{
    match cell {
        Cell::Pane(_, _) => 0,
        Cell::Split(_, _, inner) => 1 + divisions_inside(inner),
    }
}

pub open spec fn divisions_inside(cells: Seq<Cell>) -> nat
    decreases cells,
{
    if cells.len() == 0 {
        0
    } else {
        divisions_in(cells[0]) + divisions_inside(cells.skip(1))
    }
}

/// How many panes layout steps have, taken together.
pub open spec fn panes_listed(layouts: Seq<LayoutView>) -> nat
    decreases layouts.len(),
{
    if layouts.len() == 0 {
        0
    } else {
        panes_listed(layouts.drop_last()) + layouts.last().panes().len()
    }
}

proof fn lemma_panes_listed_concat(a: Seq<LayoutView>, b: Seq<LayoutView>)
    ensures
        panes_listed(a + b) == panes_listed(a) + panes_listed(b),
    decreases b.len(),
{
    if b.len() == 0 {
        assert(a + b =~= a);
    } else {
        assert((a + b).drop_last() =~= a + b.drop_last());
        lemma_panes_listed_concat(a, b.drop_last());
    }
}

proof fn lemma_steps_count(cell: Cell)
    requires
        well_formed(cell),
    ensures
        steps(cell).len() == divisions_in(cell),
        panes_listed(steps(cell)) + 1 == panes_in(cell) + divisions_in(cell),
    decreases cell, 0nat,
{
    if let Cell::Split(place, across, inner) = cell {
        let first = seq![division(cell, across, inner)];
        lemma_steps_inside_count(inner);
        lemma_panes_listed_concat(first, steps_inside(inner));
        assert(first.drop_last() =~= seq![]);
        assert(panes_listed(first.drop_last()) == 0);
        assert(panes_listed(first) == inner.len());
    }
}

proof fn lemma_steps_inside_count(cells: Seq<Cell>)
    requires
        all_well_formed(cells),
    ensures
        steps_inside(cells).len() == divisions_inside(cells),
        panes_listed(steps_inside(cells)) + cells.len() == panes_inside(cells)
            + divisions_inside(cells),
    decreases cells, 1nat,
{
    if cells.len() > 0 {
        lemma_steps_count(cells[0]);
        lemma_steps_inside_count(cells.skip(1));
        lemma_panes_listed_concat(steps_inside(cells.skip(1)), steps(cells[0]));
    }
}

/// A divided window has a layout step for each divided cell; and taken together the steps have one
/// pane for each pane of the window and each divided cell, less one.
pub proof fn law_steps_are_as_many_as_divisions(cell: Cell)
    requires
        well_formed(cell),
        cell is Split,
    ensures
        window_steps(cell).len() == divisions_in(cell),
        panes_listed(window_steps(cell)) + 1 == panes_in(cell) + divisions_in(cell),
{
    lemma_steps_count(cell);
}

} // verus!
