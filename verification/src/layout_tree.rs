//! What a layout string means: a tree of cells, how tmux writes it, and the layout steps that
//! reading it back gives.

use crate::items::{LayoutView, PaneItem};
use crate::layout::{
    bare_pane, cell_spans, closed_split, digits_end, first_inner, id_end, is_digit,
    lemma_cell_spans,
    lemma_read_close, lemma_read_end, lemma_read_inner_pane, lemma_read_inner_split,
    lemma_read_outer_pane, lemma_read_outer_split, lemma_read_within, number_at, opening, pane_at,
    pane_len, read_layout, Inner, LayoutEnd, LayoutOutcome, PaneAt,
};
use crate::text::{
    decimal, is_ascii_digit, law_decimal_reads_back, law_number_is_base_ten, NumberError,
};
use vstd::prelude::*;

verus! {

/// Where a cell stands in its window.
pub struct Place {
    pub width: u64,
    pub height: u64,
    pub left: u64,
    pub top: u64,
}

/// A cell of a window: a pane, or a cell that is divided, side by side (`across`) or not.
pub enum Cell {
    Pane(Place, u64),
    Split(Place, bool, Seq<Cell>),
}

impl Cell {
    pub open spec fn place(self) -> Place {
        match self {
            Cell::Pane(place, _) => place,
            Cell::Split(place, _, _) => place,
        }
    }
}

/// Every divided cell holds at least one cell.
pub open spec fn well_formed(cell: Cell) -> bool
    decreases cell,
{
    match cell {
        Cell::Pane(_, _) => true,
        Cell::Split(_, _, inner) => inner.len() >= 1 && all_well_formed(inner),
    }
}

pub open spec fn all_well_formed(cells: Seq<Cell>) -> bool
    decreases cells,
{
    cells.len() == 0 || (well_formed(cells[0]) && all_well_formed(cells.skip(1)))
}

/// How tmux writes the place of a cell.
#[verifier::opaque]
pub open spec fn place_text(place: Place) -> Seq<char> {
    decimal(place.width as nat) + seq!['x'] + decimal(place.height as nat) + seq![',']
        + decimal(place.left as nat) + seq![','] + decimal(place.top as nat)
}

/// How tmux writes a cell.
pub open spec fn cell_text(cell: Cell) -> Seq<char>
    decreases cell,
{
    match cell {
        Cell::Pane(place, id) => place_text(place) + seq![','] + decimal(id as nat),
        Cell::Split(place, across, inner) => place_text(place) + seq![
            if across {
                '{'
            } else {
                '['
            },
        ] + cells_text(inner, true) + seq![
            if across {
                '}'
            } else {
                ']'
            },
        ],
    }
}

/// How tmux writes the cells inside a cell: with commas between them.
pub open spec fn cells_text(cells: Seq<Cell>, first: bool) -> Seq<char>
    decreases cells,
{
    if cells.len() == 0 {
        seq![]
    } else {
        lead(first) + cell_text(cells[0]) + cells_text(cells.skip(1), false)
    }
}

/// The comma before a cell that is not the first.
pub open spec fn lead(first: bool) -> Seq<char> {
    if first {
        seq![]
    } else {
        seq![',']
    }
}

/// The number of the last pane in a cell.
pub open spec fn last_id(cell: Cell) -> u64
    decreases cell,
{
    match cell {
        Cell::Pane(_, id) => id,
        Cell::Split(_, _, inner) => if inner.len() == 0 {
            0
        } else {
            last_id(inner[inner.len() - 1])
        },
    }
}

/// The pane that takes up a whole cell before the cell is divided: the one that is last in it.
pub open spec fn head(cell: Cell) -> PaneItem {
    let place = cell.place();
    bare_pane(last_id(cell), place.width, place.height, place.left, place.top)
}

pub open spec fn heads(cells: Seq<Cell>) -> Seq<PaneItem> {
    cells.map_values(|c: Cell| head(c))
}

/// The layout steps of a divided cell: first the cell itself, with the panes that it is divided
/// into, then the divided cells inside it, the last one first. A pane needs no step.
pub open spec fn steps(cell: Cell) -> Seq<LayoutView>
    decreases cell,
{
    match cell {
        Cell::Pane(_, _) => seq![],
        Cell::Split(_, across, inner) => seq![division(cell, across, inner)] + steps_inside(inner),
    }
}

pub open spec fn steps_inside(cells: Seq<Cell>) -> Seq<LayoutView>
    decreases cells,
{
    if cells.len() == 0 {
        seq![]
    } else {
        steps_inside(cells.skip(1)) + steps(cells[0])
    }
}

/// The step that divides a cell: the pane that takes it up at first, and the panes that are then
/// taken off it.
pub open spec fn division(cell: Cell, across: bool, inner: Seq<Cell>) -> LayoutView {
    let panes = seq![head(cell)] + heads(inner.drop_last());
    if across {
        LayoutView::SplitHorizontal(panes)
    } else {
        LayoutView::SplitVertical(panes)
    }
}

/// What the layout string of a window says.
pub open spec fn window_steps(cell: Cell) -> Seq<LayoutView> {
    match cell {
        Cell::Pane(_, _) => seq![LayoutView::SinglePane(head(cell))],
        Cell::Split(_, _, _) => steps(cell),
    }
}

// ---------------------------------------------------------------------------
// Scanning what was written
// ---------------------------------------------------------------------------

/// Digits end where something else follows.
proof fn lemma_digits_run(s: Seq<char>, from: int, end: int)
    requires
        0 <= from <= end <= s.len(),
        forall|i: int| from <= i < end ==> is_digit(#[trigger] s[i]),
        end == s.len() || !is_digit(s[end]),
    ensures
        digits_end(s, from) == end,
    decreases end - from,
{
    if from < end {
        lemma_digits_run(s, from + 1, end);
    }
}

/// A number that was written is found again, and read back.
proof fn lemma_number_found(s: Seq<char>, before: Seq<char>, n: u64, after: Seq<char>)
    requires
        s == before + decimal(n as nat) + after,
        after.len() == 0 || !is_digit(after[0]),
    ensures
        decimal(n as nat).len() >= 1,
        digits_end(s, before.len() as int) == before.len() + decimal(n as nat).len(),
        number_at(s, before.len() as int, (before.len() + decimal(n as nat).len()) as int) == Ok::<
            nat,
            NumberError,
        >(n as nat),
{
    law_decimal_reads_back(n as nat, u64::MAX as nat);
    let d = decimal(n as nat);
    let from = before.len() as int;
    let end = from + d.len();
    assert forall|i: int| from <= i < end implies is_digit(#[trigger] s[i]) by {
        assert(s[i] == d[i - from]);
        assert(is_ascii_digit(d[i - from]));
    }
    if after.len() > 0 {
        assert(s[end] == after[0]);
    }
    lemma_digits_run(s, from, end);
    assert(s.subrange(from, end) == d);
}

/// The numbers of a place, each with what comes before and after it.
proof fn lemma_place_parts(
    s: Seq<char>,
    b0: Seq<char>,
    w: Seq<char>,
    h: Seq<char>,
    l: Seq<char>,
    t: Seq<char>,
    after: Seq<char>,
)
    requires
        s == b0 + (w + seq!['x'] + h + seq![','] + l + seq![','] + t) + after,
    ensures
        s == b0 + w + (seq!['x'] + h + (seq![','] + l + (seq![','] + t + after))),
        s == (b0 + w + seq!['x']) + h + (seq![','] + l + (seq![','] + t + after)),
        s == (b0 + w + seq!['x'] + h + seq![',']) + l + (seq![','] + t + after),
        s == (b0 + w + seq!['x'] + h + seq![','] + l + seq![',']) + t + after,
{
    assert(s =~= b0 + w + (seq!['x'] + h + (seq![','] + l + (seq![','] + t + after))));
    assert(s =~= (b0 + w + seq!['x']) + h + (seq![','] + l + (seq![','] + t + after)));
    assert(s =~= (b0 + w + seq!['x'] + h + seq![',']) + l + (seq![','] + t + after));
    assert(s =~= (b0 + w + seq!['x'] + h + seq![','] + l + seq![',']) + t + after);
}

/// A cell that was written is found again, and read back.
proof fn lemma_place_found(s: Seq<char>, first: bool, place: Place, after: Seq<char>)
    requires
        s == lead(first) + place_text(place) + after,
        after.len() == 0 || !is_digit(after[0]),
    ensures
        cell_spans(s) matches Some(c) && c.top == s.len() - after.len() && number_at(
            s,
            c.start,
            c.width,
        ) == Ok::<nat, NumberError>(place.width as nat) && number_at(s, c.width + 1, c.height)
            == Ok::<nat, NumberError>(place.height as nat) && number_at(s, c.height + 1, c.left)
            == Ok::<nat, NumberError>(place.left as nat) && number_at(s, c.left + 1, c.top) == Ok::<
            nat,
            NumberError,
        >(place.top as nat),
{
    reveal(cell_spans);
    reveal(place_text);
    let w = decimal(place.width as nat);
    let h = decimal(place.height as nat);
    let l = decimal(place.left as nat);
    let t = decimal(place.top as nat);
    let b0 = lead(first);
    let b1 = b0 + w + seq!['x'];
    let b2 = b1 + h + seq![','];
    let b3 = b2 + l + seq![','];
    let a3 = after;
    let a2 = seq![','] + t + after;
    let a1 = seq![','] + l + a2;
    let a0 = seq!['x'] + h + a1;
    lemma_place_parts(s, b0, w, h, l, t, after);
    lemma_number_found(s, b0, place.width, a0);
    lemma_number_found(s, b1, place.height, a1);
    lemma_number_found(s, b2, place.left, a2);
    lemma_number_found(s, b3, place.top, a3);
    law_decimal_reads_back(place.width as nat, u64::MAX as nat);
    assert(s[b0.len() as int] == w[0]);
    assert(is_ascii_digit(w[0]));
    let start = b0.len() as int;
    assert(start == (if s.len() > 0 && s[0] == ',' { 1int } else { 0int }));
    let width = start + w.len();
    assert(s[width] == a0[0]);
    let height = width + 1 + h.len();
    assert(s[height] == a1[0]);
    let left = height + 1 + l.len();
    assert(s[left] == a2[0]);
}

/// The beginning of a divided cell that was written is found again, with its inside behind it.
proof fn lemma_split_found(
    s: Seq<char>,
    first: bool,
    place: Place,
    across: bool,
    inner: Seq<Cell>,
    rest: Seq<char>,
)
    requires
        s == lead(first) + cell_text(Cell::Split(place, across, inner)) + rest,
    ensures
        ({
            let n = (lead(first).len() + place_text(place).len() + 1) as int;
            let body = cells_text(inner, true);
            let close = if across {
                '}'
            } else {
                ']'
            };
            &&& opening(s) == Some(n)
            &&& pane_at(s) == PaneAt::Pane(
                bare_pane(0, place.width, place.height, place.left, place.top),
            )
            &&& s.skip(n) == body + seq![close] + rest
            &&& s.skip(n + body.len() + 1) == rest
            &&& n + body.len() + 1 + rest.len() == s.len()
        }),
{
    let open = if across {
        '{'
    } else {
        '['
    };
    let close = if across {
        '}'
    } else {
        ']'
    };
    let body = cells_text(inner, true);
    let after = seq![open] + body + seq![close] + rest;
    let p = place_text(place);
    assert(s == lead(first) + p + after) by {
        assert(cell_text(Cell::Split(place, across, inner)) == p + seq![open] + body + seq![close]);
        assert(lead(first) + (p + seq![open] + body + seq![close]) + rest =~= lead(first) + p
            + after);
    }
    lemma_place_found(s, first, place, after);
    let n = (lead(first).len() + p.len() + 1) as int;
    assert(s[n - 1] == after[0]);
    assert(s.skip(n) =~= body + seq![close] + rest);
    assert(s.skip(n + body.len() + 1) =~= rest);
}

/// Closing a divided cell gives the step that divides it.
proof fn lemma_division(place: Place, across: bool, inner: Seq<Cell>)
    requires
        inner.len() >= 1,
    ensures
        closed_split(
            seq![bare_pane(0, place.width, place.height, place.left, place.top)] + heads(inner),
        ) == Some(seq![head(Cell::Split(place, across, inner))] + heads(inner.drop_last())),
{
    let bare = bare_pane(0, place.width, place.height, place.left, place.top);
    let panes = seq![bare] + heads(inner);
    assert(panes.last() == head(inner[inner.len() - 1]));
    assert(closed_split(panes)->0 =~= seq![head(Cell::Split(place, across, inner))] + heads(
        inner.drop_last(),
    ));
}

// ---------------------------------------------------------------------------
// Reading what was written
// ---------------------------------------------------------------------------

/// What ends or goes on with the inside of a divided cell.
pub open spec fn goes_on(rest: Seq<char>) -> bool {
    rest.len() > 0 && (rest[0] == ',' || rest[0] == '}' || rest[0] == ']')
}

/// Inside a divided cell, a pane that was written is added to the panes there.
proof fn lemma_read_pane(
    place: Place,
    id: u64,
    first: bool,
    rest: Seq<char>,
    parsed: nat,
    layouts: Seq<LayoutView>,
    inside: Seq<PaneItem>,
)
    requires
        goes_on(rest),
    ensures
        read_layout(
            lead(first) + cell_text(Cell::Pane(place, id)) + rest,
            parsed,
            layouts,
            Some(inside),
        ) == read_layout(
            rest,
            parsed + lead(first).len() + cell_text(Cell::Pane(place, id)).len(),
            steps(Cell::Pane(place, id)) + layouts,
            Some(inside.push(head(Cell::Pane(place, id)))),
        ),
{
    let cell = Cell::Pane(place, id);
    let s = lead(first) + cell_text(cell) + rest;
    let after = seq![','] + decimal(id as nat) + rest;
    assert(s == lead(first) + place_text(place) + after);
    lemma_place_found(s, first, place, after);
    let c = cell_spans(s)->0;
    let before = lead(first) + place_text(place) + seq![','];
    assert(s == before + decimal(id as nat) + rest);
    lemma_number_found(s, before, id, rest);
    assert(s[c.top] == after[0]);
    let n = s.len() - rest.len();
    assert(pane_len(s) == Some(n));
    assert(opening(s) is None);
    assert(pane_at(s) == PaneAt::Pane(head(cell)));
    assert(s.skip(n) == rest);
    assert(steps(cell) + layouts == layouts);
    lemma_read_inner_pane(s, n, head(cell), parsed, layouts, inside);
}

/// Inside a divided cell, a cell that was written adds its first pane to the panes there, and its
/// steps to the steps there are.
proof fn lemma_read_cell(
    cell: Cell,
    first: bool,
    rest: Seq<char>,
    parsed: nat,
    layouts: Seq<LayoutView>,
    inside: Seq<PaneItem>,
)
    requires
        well_formed(cell),
        goes_on(rest),
        parsed + lead(first).len() + cell_text(cell).len() + rest.len() <= usize::MAX,
    ensures
        read_layout(lead(first) + cell_text(cell) + rest, parsed, layouts, Some(inside))
            == read_layout(
            rest,
            parsed + lead(first).len() + cell_text(cell).len(),
            steps(cell) + layouts,
            Some(inside.push(head(cell))),
        ),
    decreases cell, 0nat,
{
    let s = lead(first) + cell_text(cell) + rest;
    match cell {
        Cell::Pane(place, id) => lemma_read_pane(place, id, first, rest, parsed, layouts, inside),
        Cell::Split(place, across, inner) => {
            lemma_split_found(s, first, place, across, inner, rest);
            let n = lead(first).len() + place_text(place).len() + 1;
            let m = cells_text(inner, true).len() + 1;
            let bare = bare_pane(0, place.width, place.height, place.left, place.top);
            lemma_read_cells(inner, true, across, rest, 0, layouts, seq![bare]);
            lemma_division(place, across, inner);
            let out = read_layout(s.skip(n as int), 0, layouts, Some(seq![bare]));
            assert(out.layouts =~= steps(cell) + layouts);
            assert(first_inner(out.layouts) == Inner::Pane(head(cell)));
            let n = n as int;
            lemma_read_inner_split(s, n, bare, m as usize, head(cell), parsed, layouts, inside);
        },
    }
}

/// The cells inside a divided cell, and its end, are read up to that end, and give the step that
/// divides the cell and the steps of the cells inside.
proof fn lemma_read_cells(
    cells: Seq<Cell>,
    first: bool,
    across: bool,
    rest: Seq<char>,
    parsed: nat,
    layouts: Seq<LayoutView>,
    inside: Seq<PaneItem>,
)
    requires
        all_well_formed(cells),
        inside.len() + cells.len() >= 2,
        parsed + cells_text(cells, first).len() + 1 + rest.len() <= usize::MAX,
    ensures
        read_layout(
            cells_text(cells, first) + seq![
                if across {
                    '}'
                } else {
                    ']'
                },
            ] + rest,
            parsed,
            layouts,
            Some(inside),
        ) == (LayoutOutcome {
            end: LayoutEnd::Done((parsed + cells_text(cells, first).len() + 1) as usize),
            layouts: seq![
                if across {
                    LayoutView::SplitHorizontal(closed_split(inside + heads(cells))->0)
                } else {
                    LayoutView::SplitVertical(closed_split(inside + heads(cells))->0)
                },
            ] + (steps_inside(cells) + layouts),
        }),
    decreases cells, 1nat,
{
    let close = if across {
        '}'
    } else {
        ']'
    };
    let s = cells_text(cells, first) + seq![close] + rest;
    if cells.len() == 0 {
        assert(s[0] == close);
        lemma_read_close(s, parsed, layouts, inside);
        assert(inside + heads(cells) == inside);
        assert(steps_inside(cells) + layouts == layouts);
    } else {
        let tail = cells.skip(1);
        let more = cells_text(tail, false) + seq![close] + rest;
        assert(s == lead(first) + cell_text(cells[0]) + more);
        assert(goes_on(more)) by {
            if tail.len() > 0 {
                assert(more[0] == lead(false)[0]);
            } else {
                assert(more[0] == close);
            }
        }
        lemma_read_cell(cells[0], first, more, parsed, layouts, inside);
        let parsed2 = parsed + lead(first).len() + cell_text(cells[0]).len();
        lemma_read_cells(
            tail,
            false,
            across,
            rest,
            parsed2,
            steps(cells[0]) + layouts,
            inside.push(head(cells[0])),
        );
        assert(inside.push(head(cells[0])) + heads(tail) =~= inside + heads(cells));
        assert(steps_inside(tail) + (steps(cells[0]) + layouts) =~= steps_inside(cells) + layouts);
    }
}

/// Reading the layout string of a window gives back what it was written from: every cell of it,
/// as the steps that divide the window, the outermost first. The steps of a divided window go
/// before those that there are, and a single pane goes behind them.
pub proof fn law_layout_reads_back(cell: Cell, layouts: Seq<LayoutView>)
    requires
        well_formed(cell),
        cell_text(cell).len() <= usize::MAX,
    ensures
        read_layout(cell_text(cell), 0, layouts, None).layouts == (match cell {
            Cell::Pane(_, _) => layouts + window_steps(cell),
            Cell::Split(_, _, _) => window_steps(cell) + layouts,
        }),
        layouts.len() == 0 ==> read_layout(cell_text(cell), 0, layouts, None).layouts
            == window_steps(cell),
        read_layout(cell_text(cell), 0, layouts, None).end == (match cell {
            Cell::Pane(_, _) => LayoutEnd::Done(cell_text(cell).len() as usize),
            Cell::Split(_, _, _) => LayoutEnd::Done(0),
        }),
{
    let s = cell_text(cell);
    match cell {
        Cell::Pane(place, id) => {
            let after = seq![','] + decimal(id as nat);
            assert(s == lead(true) + place_text(place) + after);
            lemma_place_found(s, true, place, after);
            let c = cell_spans(s)->0;
            let before = place_text(place) + seq![','];
            assert(s == before + decimal(id as nat) + Seq::<char>::empty());
            lemma_number_found(s, before, id, Seq::empty());
            assert(s[c.top] == after[0]);
            assert(pane_len(s) == Some(s.len() as int));
            assert(opening(s) is None);
            assert(pane_at(s) == PaneAt::Pane(head(cell)));
            lemma_read_outer_pane(s, s.len() as int, head(cell), 0, layouts);
            assert(read_layout(s, 0, layouts, None).layouts =~= layouts + window_steps(cell));
        },
        Cell::Split(place, across, inner) => {
            let end = Seq::<char>::empty();
            assert(s == lead(true) + s + end);
            lemma_split_found(s, true, place, across, inner, end);
            let n = place_text(place).len() as int + 1;
            let m = cells_text(inner, true).len() + 1;
            let bare = bare_pane(0, place.width, place.height, place.left, place.top);
            lemma_read_cells(inner, true, across, end, 0, layouts, seq![bare]);
            lemma_division(place, across, inner);
            let out = read_layout(s.skip(n), 0, layouts, Some(seq![bare]));
            assert(out.layouts =~= steps(cell) + layouts);
            lemma_read_outer_split(s, n, bare, m as usize, 0, layouts);
            lemma_read_end((n + m) as nat, s.skip(n + m), out.layouts, None);
        },
    }
}

// ---------------------------------------------------------------------------
// Which panes a layout names
// ---------------------------------------------------------------------------

/// Whether a list of panes has one of that number.
pub open spec fn lists(panes: Seq<PaneItem>, id: u64) -> bool {
    exists|i: int| 0 <= i < panes.len() && (#[trigger] panes[i]).pane_id == id
}

/// Whether some layout step has a pane of that number.
pub open spec fn mentions(layouts: Seq<LayoutView>, id: u64) -> bool {
    exists|i: int| 0 <= i < layouts.len() && lists((#[trigger] layouts[i]).panes(), id)
}

/// Whether a pane of that number stands in a cell.
pub open spec fn holds(cell: Cell, id: u64) -> bool
    decreases cell,
{
    match cell {
        Cell::Pane(_, own) => own == id,
        Cell::Split(_, _, inner) => holds_inside(inner, id),
    }
}

pub open spec fn holds_inside(cells: Seq<Cell>, id: u64) -> bool
    decreases cells,
{
    cells.len() > 0 && (holds(cells[0], id) || holds_inside(cells.skip(1), id))
}

/// Steps together name what each of them names.
pub proof fn lemma_mentions_concat(a: Seq<LayoutView>, b: Seq<LayoutView>, id: u64)
    ensures
        mentions(a + b, id) <==> mentions(a, id) || mentions(b, id),
{
    let ab = a + b;
    if mentions(ab, id) {
        let i = choose|i: int| 0 <= i < ab.len() && lists((#[trigger] ab[i]).panes(), id);
        if i < a.len() {
            assert(a[i] == ab[i]);
        } else {
            assert(b[i - a.len()] == ab[i]);
        }
    }
    if mentions(a, id) {
        let i = choose|i: int| 0 <= i < a.len() && lists((#[trigger] a[i]).panes(), id);
        assert(ab[i] == a[i]);
    }
    if mentions(b, id) {
        let i = choose|i: int| 0 <= i < b.len() && lists((#[trigger] b[i]).panes(), id);
        assert(ab[i + a.len()] == b[i]);
    }
}

proof fn lemma_division_lists(place: Place, across: bool, inner: Seq<Cell>, id: u64)
    requires
        inner.len() >= 1,
    ensures
        lists(division(Cell::Split(place, across, inner), across, inner).panes(), id) <==> lists(
            heads(inner),
            id,
        ),
{
    let cell = Cell::Split(place, across, inner);
    let panes = division(cell, across, inner).panes();
    let all = heads(inner);
    assert(panes == seq![head(cell)] + heads(inner.drop_last()));
    assert(panes[0].pane_id == all[all.len() - 1].pane_id);
    if lists(panes, id) {
        let i = choose|i: int| 0 <= i < panes.len() && (#[trigger] panes[i]).pane_id == id;
        if i == 0 {
            assert(all[all.len() - 1].pane_id == id);
        } else {
            assert(all[i - 1] == panes[i]);
        }
    }
    if lists(all, id) {
        let i = choose|i: int| 0 <= i < all.len() && (#[trigger] all[i]).pane_id == id;
        if i == all.len() - 1 {
            assert(panes[0].pane_id == id);
        } else {
            assert(panes[i + 1] == all[i]);
        }
    }
}

proof fn lemma_cell_mentions(cell: Cell, id: u64)
    requires
        well_formed(cell),
    ensures
        holds(cell, id) <==> mentions(steps(cell), id) || head(cell).pane_id == id,
        cell is Split ==> (holds(cell, id) <==> mentions(steps(cell), id)),
    decreases cell, 0nat,
{
    match cell {
        Cell::Pane(_, _) => {
            assert(steps(cell).len() == 0);
        },
        Cell::Split(place, across, inner) => {
            let first = seq![division(cell, across, inner)];
            lemma_cells_mention(inner, id);
            lemma_division_lists(place, across, inner, id);
            lemma_mentions_concat(first, steps_inside(inner), id);
            assert(mentions(first, id) <==> lists(first[0].panes(), id));
            let all = heads(inner);
            assert(head(cell).pane_id == all[all.len() - 1].pane_id);
        },
    }
}

proof fn lemma_cells_mention(cells: Seq<Cell>, id: u64)
    requires
        all_well_formed(cells),
    ensures
        holds_inside(cells, id) <==> mentions(steps_inside(cells), id) || lists(heads(cells), id),
    decreases cells, 1nat,
{
    if cells.len() == 0 {
        assert(steps_inside(cells).len() == 0);
    } else {
        let tail = cells.skip(1);
        lemma_cell_mentions(cells[0], id);
        lemma_cells_mention(tail, id);
        lemma_mentions_concat(steps_inside(tail), steps(cells[0]), id);
        let all = heads(cells);
        assert(heads(tail) =~= all.skip(1));
        assert(all[0] == head(cells[0]));
        if lists(all, id) && all[0].pane_id != id {
            let i = choose|i: int| 0 <= i < all.len() && (#[trigger] all[i]).pane_id == id;
            assert(heads(tail)[i - 1] == all[i]);
        }
        if lists(heads(tail), id) {
            let i = choose|i: int|
                0 <= i < heads(tail).len() && (#[trigger] heads(tail)[i]).pane_id == id;
            assert(all[i + 1] == heads(tail)[i]);
        }
    }
}

/// The layout steps of a window name the panes that stand in it, and no others.
pub proof fn law_steps_name_the_panes(cell: Cell, id: u64)
    requires
        well_formed(cell),
    ensures
        mentions(window_steps(cell), id) <==> holds(cell, id),
{
    lemma_cell_mentions(cell, id);
    if cell is Pane {
        let only = window_steps(cell);
        assert(only[0].panes()[0].pane_id == head(cell).pane_id);
        assert(mentions(only, id) <==> lists(only[0].panes(), id));
    }
}

// ---------------------------------------------------------------------------
// What holds of every reading
// ---------------------------------------------------------------------------

/// Every layout step has a pane.
pub open spec fn all_occupied(layouts: Seq<LayoutView>) -> bool {
    forall|i: int| 0 <= i < layouts.len() ==> (#[trigger] layouts[i]).panes().len() >= 1
}

/// No layout step is a single pane.
pub open spec fn all_divided(layouts: Seq<LayoutView>) -> bool {
    forall|i: int| 0 <= i < layouts.len() ==> !(#[trigger] layouts[i] is SinglePane)
}

/// The steps of a window that is divided are all divisions.
pub proof fn law_divided_window_has_divisions(cell: Cell)
    requires
        cell is Split,
    ensures
        all_divided(window_steps(cell)),
{
    lemma_steps_divided(cell);
}

proof fn lemma_steps_divided(cell: Cell)
    ensures
        all_divided(steps(cell)),
    decreases cell, 0nat,
{
    if let Cell::Split(place, across, inner) = cell {
        lemma_steps_inside_divided(inner);
    }
}

proof fn lemma_steps_inside_divided(cells: Seq<Cell>)
    ensures
        all_divided(steps_inside(cells)),
    decreases cells, 1nat,
{
    if cells.len() > 0 {
        lemma_steps_divided(cells[0]);
        lemma_steps_inside_divided(cells.skip(1));
    }
}

/// Whatever the text, a reading leaves no layout step without a pane, and one that starts with
/// divided cells only is never turned down.
pub proof fn law_reading_is_sound(
    s: Seq<char>,
    parsed: nat,
    layouts: Seq<LayoutView>,
    stack: Option<Seq<PaneItem>>,
)
    requires
        all_occupied(layouts),
    ensures
        all_occupied(read_layout(s, parsed, layouts, stack).layouts),
        all_divided(layouts) ==> !(read_layout(s, parsed, layouts, stack).end is NotRight),
        all_divided(layouts) && stack is Some ==> all_divided(
            read_layout(s, parsed, layouts, stack).layouts,
        ),
    decreases s.len(),
{
    reveal_with_fuel(read_layout, 1);
    lemma_cell_spans(s);
    if s.len() == 0 {
    } else if let Some(n) = opening(s) {
        if let PaneAt::Pane(cell) = pane_at(s) {
            law_reading_is_sound(s.skip(n), 0, layouts, Some(seq![cell]));
            let inner = read_layout(s.skip(n), 0, layouts, Some(seq![cell]));
            if let LayoutEnd::Done(m) = inner.end {
                if n + m <= s.len() {
                    match stack {
                        None => law_reading_is_sound(
                            s.skip(n + m),
                            (parsed + n + m) as nat,
                            inner.layouts,
                            None,
                        ),
                        Some(inside) => if let Inner::Pane(pane) = first_inner(inner.layouts) {
                            law_reading_is_sound(
                                s.skip(n + m),
                                (parsed + n + m) as nat,
                                inner.layouts,
                                Some(inside.push(pane)),
                            );
                        },
                    }
                }
            }
        }
    } else if let Some(n) = pane_len(s) {
        if let PaneAt::Pane(pane) = pane_at(s) {
            if let Some(inside) = stack {
                law_reading_is_sound(
                    s.skip(n),
                    (parsed + n) as nat,
                    layouts,
                    Some(inside.push(pane)),
                );
            }
        }
    }
}

/// Whether the first so many characters take one byte each.
pub open spec fn ascii_up_to(s: Seq<char>, end: int) -> bool {
    forall|i: int| 0 <= i < end && i < s.len() ==> (#[trigger] s[i] as u32) < 0x80
}

proof fn lemma_number_is_ascii(s: Seq<char>, from: int, end: int)
    requires
        0 <= from <= end <= s.len(),
        number_at(s, from, end) is Ok,
    ensures
        forall|i: int| from <= i < end ==> (#[trigger] s[i] as u32) < 0x80,
{
    let digits = s.subrange(from, end);
    law_number_is_base_ten(digits, u64::MAX as nat);
    assert forall|i: int| from <= i < end implies (#[trigger] s[i] as u32) < 0x80 by {
        assert(is_ascii_digit(digits[i - from]));
    }
}

proof fn lemma_cell_is_ascii(s: Seq<char>)
    requires
        pane_at(s) is Pane,
    ensures
        cell_spans(s) matches Some(c) && ascii_up_to(s, c.top) && (id_end(s, c) matches Some(e)
            ==> ascii_up_to(s, e)),
{
    lemma_cell_spans(s);
    reveal(cell_spans);
    let c = cell_spans(s)->0;
    lemma_number_is_ascii(s, c.start, c.width);
    lemma_number_is_ascii(s, c.width + 1, c.height);
    lemma_number_is_ascii(s, c.height + 1, c.left);
    lemma_number_is_ascii(s, c.left + 1, c.top);
    assert(ascii_up_to(s, c.top));
    if let Some(e) = id_end(s, c) {
        lemma_number_is_ascii(s, c.top + 1, e);
    }
}

proof fn lemma_read_is_ascii(
    s: Seq<char>,
    parsed: nat,
    layouts: Seq<LayoutView>,
    stack: Option<Seq<PaneItem>>,
)
    requires
        parsed + s.len() <= usize::MAX,
    ensures
        read_layout(s, parsed, layouts, stack).end matches LayoutEnd::Done(m) ==> ascii_up_to(
            s,
            m - parsed,
        ),
    decreases s.len(),
{
    reveal_with_fuel(read_layout, 1);
    lemma_cell_spans(s);
    let whole = read_layout(s, parsed, layouts, stack);
    if s.len() == 0 {
    } else if let Some(n) = opening(s) {
        if let PaneAt::Pane(cell) = pane_at(s) {
            lemma_cell_is_ascii(s);
            let inner = read_layout(s.skip(n), 0, layouts, Some(seq![cell]));
            lemma_read_is_ascii(s.skip(n), 0, layouts, Some(seq![cell]));
            lemma_read_within(s.skip(n), 0, layouts, Some(seq![cell]));
            if let LayoutEnd::Done(m) = inner.end {
                lemma_ascii_behind(s, n, n + m);
                let next = match stack {
                    None => None,
                    Some(inside) => match first_inner(inner.layouts) {
                        Inner::Pane(pane) => Some(inside.push(pane)),
                        _ => None,
                    },
                };
                lemma_read_is_ascii(s.skip(n + m), (parsed + n + m) as nat, inner.layouts, next);
                if let LayoutEnd::Done(all) = whole.end {
                    lemma_ascii_behind(s, n + m, all - parsed);
                }
            }
        }
    } else if let Some(n) = pane_len(s) {
        if let PaneAt::Pane(pane) = pane_at(s) {
            lemma_cell_is_ascii(s);
            if let Some(inside) = stack {
                lemma_read_is_ascii(
                    s.skip(n),
                    (parsed + n) as nat,
                    layouts,
                    Some(inside.push(pane)),
                );
                if let LayoutEnd::Done(all) = whole.end {
                    lemma_ascii_behind(s, n, all - parsed);
                }
            }
        }
    }
}

proof fn lemma_ascii_behind(s: Seq<char>, n: int, end: int)
    requires
        0 <= n <= s.len(),
        ascii_up_to(s, n),
        ascii_up_to(s.skip(n), end - n),
    ensures
        ascii_up_to(s, end),
{
    assert forall|i: int| 0 <= i < end && i < s.len() implies (#[trigger] s[i] as u32) < 0x80 by {
        assert(i >= n ==> s[i] == s.skip(n)[i - n]);
    }
}

/// Whether no layout step but the last is a single pane.
pub open spec fn single_is_last(layouts: Seq<LayoutView>) -> bool {
    forall|k: int| 0 <= k < layouts.len() - 1 ==> !(#[trigger] layouts[k] is SinglePane)
}

/// Whatever the text, only the last layout step that a reading of a window gives can be a single
/// pane.
pub proof fn law_single_pane_is_last(s: Seq<char>, parsed: nat, layouts: Seq<LayoutView>)
    requires
        all_occupied(layouts),
        all_divided(layouts),
    ensures
        single_is_last(read_layout(s, parsed, layouts, None).layouts),
    decreases s.len(),
{
    reveal_with_fuel(read_layout, 1);
    lemma_cell_spans(s);
    if s.len() == 0 {
    } else if let Some(n) = opening(s) {
        if let PaneAt::Pane(cell) = pane_at(s) {
            law_reading_is_sound(s.skip(n), 0, layouts, Some(seq![cell]));
            let inner = read_layout(s.skip(n), 0, layouts, Some(seq![cell]));
            if let LayoutEnd::Done(m) = inner.end {
                if n + m <= s.len() {
                    law_single_pane_is_last(s.skip(n + m), (parsed + n + m) as nat, inner.layouts);
                }
            }
        }
    }
}

/// The characters that a reading takes in are as many bytes: whatever the text, they are ASCII.
pub proof fn law_reading_takes_ascii_only(
    s: Seq<char>,
    layouts: Seq<LayoutView>,
    stack: Option<Seq<PaneItem>>,
)
    requires
        s.len() <= usize::MAX,
    ensures
        read_layout(s, 0, layouts, stack).end matches LayoutEnd::Done(m) ==> m <= s.len()
            && ascii_up_to(s, m as int),
{
    lemma_read_is_ascii(s, 0, layouts, stack);
    lemma_read_within(s, 0, layouts, stack);
}

} // verus!
