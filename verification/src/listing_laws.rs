//! What tmux writes about a pane or a window reads back as that pane or window.

use crate::items::{LayoutView, PaneItem, WindowView};
use crate::layout::read_layout;
use crate::layout_tree::{
    cell_text, cells_text, law_layout_reads_back, law_single_pane_is_last, lead, place_text,
    single_is_last, well_formed, window_steps, Cell, Place,
};
use crate::listing::{
    id_in_field, is_one, number_in_field, pane_list, pane_of_line, pane_trouble, panes_of_lines,
    placed_layouts, window_list, window_of_line, window_trouble, windows_of_lines, ListTrouble,
};
use crate::text::{
    after_bytes, decimal, is_ascii_digit, joined, law_decimal_reads_back, law_split_undoes_join,
    lemma_chars_in_bytes, lemma_pieces_first, number_value, pieces, NumberError,
};
use vstd::prelude::*;

verus! {

/// A number with its mark.
pub open spec fn marked(mark: char, n: u64) -> Seq<char> {
    seq![mark] + decimal(n as nat)
}

/// A flag, as tmux writes it.
pub open spec fn flag(on: bool) -> Seq<char> {
    if on {
        decimal(1)
    } else {
        decimal(0)
    }
}

/// The fields of a pane, as tmux writes them.
pub open spec fn pane_fields(p: PaneItem) -> Seq<Seq<char>> {
    seq![
        marked('$', p.session_id),
        marked('@', p.window_id),
        marked('%', p.pane_id),
        decimal(p._pane_index as nat),
        decimal(p.cursor_x as nat),
        decimal(p.cursor_y as nat),
        decimal(p.pane_width as nat),
        decimal(p.pane_height as nat),
        decimal(p.pane_left as nat),
        decimal(p.pane_top as nat),
        flag(p.pane_active),
    ]
}

/// The line of a pane.
pub open spec fn pane_line(p: PaneItem) -> Seq<char> {
    joined(pane_fields(p), ' ')
}

/// A window whose layout is a tree of cells.
pub struct TreeWindow {
    pub session_id: u64,
    pub window_id: u64,
    pub window_width: u64,
    pub window_height: u64,
    pub window_active: bool,
    pub checksum: Seq<char>,
    pub cell: Cell,
}

impl TreeWindow {
    /// The layout is a proper tree, its text fits in memory, and the checksum is four ASCII
    /// characters that stand in a line.
    pub open spec fn proper(self) -> bool {
        &&& well_formed(self.cell)
        &&& cell_text(self.cell).len() <= usize::MAX
        &&& self.checksum.len() == 4
        &&& forall|i: int|
            0 <= i < 4 ==> (#[trigger] self.checksum[i] as u32) < 0x80 && self.checksum[i] != ' '
                && self.checksum[i] != '\n'
    }

    /// The window as it is after reading.
    pub open spec fn item(self) -> WindowView {
        WindowView {
            session_id: self.session_id,
            window_id: self.window_id,
            window_width: self.window_width,
            window_height: self.window_height,
            window_active: self.window_active,
            layout: placed_layouts(window_steps(self.cell), self.session_id, self.window_id),
        }
    }
}

/// The fields of a window, as tmux writes them.
pub open spec fn window_fields(w: TreeWindow) -> Seq<Seq<char>> {
    seq![
        marked('$', w.session_id),
        marked('@', w.window_id),
        decimal(w.window_width as nat),
        decimal(w.window_height as nat),
        flag(w.window_active),
        w.checksum + seq![','] + cell_text(w.cell),
    ]
}

/// The line of a window.
pub open spec fn window_line(w: TreeWindow) -> Seq<char> {
    joined(window_fields(w), ' ')
}

/// Lines, each with its end.
pub open spec fn lines_text(lines: Seq<Seq<char>>) -> Seq<char>
    decreases lines.len(),
{
    if lines.len() == 0 {
        seq![]
    } else {
        lines[0] + seq!['\n'] + lines_text(lines.skip(1))
    }
}

/// Text that stands in one field of one line.
pub open spec fn plain(s: Seq<char>) -> bool {
    forall|i: int| 0 <= i < s.len() ==> #[trigger] s[i] != ' ' && s[i] != '\n'
}

proof fn lemma_plain_number(n: u64)
    ensures
        plain(decimal(n as nat)),
        number_value(decimal(n as nat), u64::MAX as nat) == Ok::<nat, NumberError>(n as nat),
{
    law_decimal_reads_back(n as nat, u64::MAX as nat);
    assert forall|i: int| 0 <= i < decimal(n as nat).len() implies #[trigger] decimal(n as nat)[i]
        != ' ' && decimal(n as nat)[i] != '\n' by {
        assert(is_ascii_digit(decimal(n as nat)[i]));
    }
}

proof fn lemma_plain_mark(mark: char, n: u64)
    requires
        (mark as u32) < 0x80,
        mark != ' ',
        mark != '\n',
    ensures
        plain(marked(mark, n)),
        after_bytes(marked(mark, n), 1) == Some(decimal(n as nat)),
        number_value(decimal(n as nat), u64::MAX as nat) == Ok::<nat, NumberError>(n as nat),
{
    lemma_plain_number(n);
    let s = marked(mark, n);
    assert forall|i: int| 0 <= i < s.len() implies #[trigger] s[i] != ' ' && s[i] != '\n' by {
        if i > 0 {
            assert(s[i] == decimal(n as nat)[i - 1]);
        }
    }
    lemma_chars_in_bytes(s, 1);
    assert(s.skip(1) =~= decimal(n as nat));
}

proof fn lemma_plain_flag(on: bool)
    ensures
        plain(flag(on)),
        number_value(flag(on), usize::MAX as nat) == Ok::<nat, NumberError>(
            if on {
                1
            } else {
                0
            },
        ),
{
    lemma_plain_number(0);
    lemma_plain_number(1);
    law_decimal_reads_back(0, usize::MAX as nat);
    law_decimal_reads_back(1, usize::MAX as nat);
}

proof fn lemma_plain_concat(a: Seq<char>, b: Seq<char>)
    requires
        plain(a),
        plain(b),
    ensures
        plain(a + b),
{
    let ab = a + b;
    assert forall|i: int| 0 <= i < ab.len() implies #[trigger] ab[i] != ' ' && ab[i] != '\n' by {
        if i < a.len() {
            assert(ab[i] == a[i]);
        } else {
            assert(ab[i] == b[i - a.len()]);
        }
    }
}

/// Fields that stand in one line are found again in it.
pub proof fn lemma_fields_found(fields: Seq<Seq<char>>)
    requires
        fields.len() >= 1,
        forall|i: int| 0 <= i < fields.len() ==> plain(#[trigger] fields[i]),
    ensures
        pieces(joined(fields, ' '), ' ') == fields,
{
    assert forall|i: int| 0 <= i < fields.len() implies !(#[trigger] fields[i]).contains(' ') by {
        assert(plain(fields[i]));
    }
    law_split_undoes_join(fields, ' ');
}

/// A line of such fields has no end of a line in it.
proof fn lemma_line_has_no_end(fields: Seq<Seq<char>>)
    requires
        fields.len() >= 1,
        forall|i: int| 0 <= i < fields.len() ==> plain(#[trigger] fields[i]),
    ensures
        !joined(fields, ' ').contains('\n'),
    decreases fields.len(),
{
    let s = joined(fields, ' ');
    if fields.len() == 1 {
        assert(plain(fields[0]));
    } else {
        let tail = fields.skip(1);
        assert forall|i: int| 0 <= i < tail.len() implies plain(#[trigger] tail[i]) by {
            assert(plain(fields[i + 1]));
        }
        lemma_line_has_no_end(tail);
        let rest = joined(tail, ' ');
        assert(plain(fields[0]));
        if s.contains('\n') {
            let i = choose|i: int| 0 <= i < s.len() && s[i] == '\n';
            let k = fields[0].len() as int;
            if i < k {
                assert(s[i] == fields[0][i]);
            } else if i > k {
                assert(s[i] == rest[i - k - 1]);
                assert(rest.contains('\n'));
            }
        }
    }
}

/// Lines that are written are found again, with an empty one behind them.
proof fn lemma_lines_found(lines: Seq<Seq<char>>)
    requires
        forall|i: int| 0 <= i < lines.len() ==> !(#[trigger] lines[i]).contains('\n'),
    ensures
        pieces(lines_text(lines), '\n') == lines.push(seq![]),
    decreases lines.len(),
{
    if lines.len() == 0 {
        let s = Seq::<char>::empty();
        assert(lines_text(lines) == s);
        assert(s.subrange(0, 0) == s);
        assert(pieces(s, '\n') =~= seq![s]);
    } else {
        let tail = lines.skip(1);
        assert forall|i: int| 0 <= i < tail.len() implies !(#[trigger] tail[i]).contains('\n') by {
            assert(!lines[i + 1].contains('\n'));
        }
        lemma_lines_found(tail);
        lemma_pieces_first(lines[0], '\n', lines_text(tail));
        assert(seq![lines[0]] + tail.push(seq![]) =~= lines.push(seq![]));
    }
}

// ---------------------------------------------------------------------------
// Panes
// ---------------------------------------------------------------------------

/// The fields of a pane stand in one line, and are the numbers that they should be.
pub proof fn lemma_pane_fields(p: PaneItem)
    ensures
        forall|i: int| 0 <= i < pane_fields(p).len() ==> plain(#[trigger] pane_fields(p)[i]),
        pane_trouble(pane_fields(p)) is None,
        id_in_field(pane_fields(p), 0) == p.session_id,
        id_in_field(pane_fields(p), 1) == p.window_id,
        id_in_field(pane_fields(p), 2) == p.pane_id,
        number_in_field(pane_fields(p), 3) == p._pane_index,
        number_in_field(pane_fields(p), 4) == p.cursor_x,
        number_in_field(pane_fields(p), 5) == p.cursor_y,
        number_in_field(pane_fields(p), 6) == p.pane_width,
        number_in_field(pane_fields(p), 7) == p.pane_height,
        number_in_field(pane_fields(p), 8) == p.pane_left,
        number_in_field(pane_fields(p), 9) == p.pane_top,
        is_one(pane_fields(p), 10) == p.pane_active,
{
    lemma_plain_mark('$', p.session_id);
    lemma_plain_mark('@', p.window_id);
    lemma_plain_mark('%', p.pane_id);
    lemma_plain_number(p._pane_index);
    lemma_plain_number(p.cursor_x);
    lemma_plain_number(p.cursor_y);
    lemma_plain_number(p.pane_width);
    lemma_plain_number(p.pane_height);
    lemma_plain_number(p.pane_left);
    lemma_plain_number(p.pane_top);
    lemma_plain_flag(p.pane_active);
}

proof fn lemma_pane_line(p: PaneItem)
    ensures
        pane_of_line(pane_line(p)) == Ok::<PaneItem, ListTrouble>(p),
        pane_line(p).len() > 0,
        !pane_line(p).contains('\n'),
{
    reveal(pane_of_line);
    let f = pane_fields(p);
    lemma_pane_fields(p);
    lemma_fields_found(f);
    lemma_line_has_no_end(f);
    assert(joined(f, ' ') == f[0] + seq![' '] + joined(f.skip(1), ' '));
}

proof fn lemma_pane_lines(panes: Seq<PaneItem>)
    ensures
        panes_of_lines(panes.map_values(|p: PaneItem| pane_line(p))) == Ok::<
            Seq<PaneItem>,
            ListTrouble,
        >(panes),
    decreases panes.len(),
{
    let lines = panes.map_values(|p: PaneItem| pane_line(p));
    if panes.len() == 0 {
        assert(panes =~= seq![]);
    } else {
        lemma_pane_lines(panes.drop_last());
        assert(lines.drop_last() =~= panes.drop_last().map_values(|p: PaneItem| pane_line(p)));
        lemma_pane_line(panes.last());
        assert(lines.last() == pane_line(panes.last()));
        assert(panes.drop_last().push(panes.last()) =~= panes);
    }
}

/// The reply to the command that lists the panes reads back as the panes that tmux listed,
/// whatever they are.
pub proof fn law_pane_list_reads_back(panes: Seq<PaneItem>)
    ensures
        pane_list(lines_text(panes.map_values(|p: PaneItem| pane_line(p)))) == Ok::<
            Seq<PaneItem>,
            ListTrouble,
        >(panes),
{
    let lines = panes.map_values(|p: PaneItem| pane_line(p));
    assert forall|i: int| 0 <= i < lines.len() implies !(#[trigger] lines[i]).contains('\n') by {
        lemma_pane_line(panes[i]);
    }
    lemma_lines_found(lines);
    lemma_pane_lines(panes);
    assert(lines.push(seq![]).drop_last() =~= lines);
}

// ---------------------------------------------------------------------------
// Windows
// ---------------------------------------------------------------------------

proof fn lemma_plain_place(place: Place)
    ensures
        plain(place_text(place)),
{
    reveal(place_text);
    lemma_plain_number(place.width);
    lemma_plain_number(place.height);
    lemma_plain_number(place.left);
    lemma_plain_number(place.top);
    let w = decimal(place.width as nat);
    let h = decimal(place.height as nat);
    let l = decimal(place.left as nat);
    let t = decimal(place.top as nat);
    lemma_plain_concat(w, seq!['x']);
    lemma_plain_concat(w + seq!['x'], h);
    lemma_plain_concat(w + seq!['x'] + h, seq![',']);
    lemma_plain_concat(w + seq!['x'] + h + seq![','], l);
    lemma_plain_concat(w + seq!['x'] + h + seq![','] + l, seq![',']);
    lemma_plain_concat(w + seq!['x'] + h + seq![','] + l + seq![','], t);
}

proof fn lemma_plain_cell(cell: Cell)
    ensures
        plain(cell_text(cell)),
    decreases cell, 0nat,
{
    lemma_plain_place(cell.place());
    let p = place_text(cell.place());
    match cell {
        Cell::Pane(place, id) => {
            lemma_plain_number(id);
            lemma_plain_concat(p, seq![',']);
            lemma_plain_concat(p + seq![','], decimal(id as nat));
        },
        Cell::Split(place, across, inner) => {
            let open = seq![
                if across {
                    '{'
                } else {
                    '['
                },
            ];
            let close = seq![
                if across {
                    '}'
                } else {
                    ']'
                },
            ];
            lemma_plain_cells(inner, true);
            lemma_plain_concat(p, open);
            lemma_plain_concat(p + open, cells_text(inner, true));
            lemma_plain_concat(p + open + cells_text(inner, true), close);
        },
    }
}

proof fn lemma_plain_cells(cells: Seq<Cell>, first: bool)
    ensures
        plain(cells_text(cells, first)),
    decreases cells, 1nat,
{
    if cells.len() > 0 {
        lemma_plain_cell(cells[0]);
        lemma_plain_cells(cells.skip(1), false);
        lemma_plain_concat(lead(first), cell_text(cells[0]));
        lemma_plain_concat(
            lead(first) + cell_text(cells[0]),
            cells_text(cells.skip(1), false),
        );
    }
}

proof fn lemma_layout_field(w: TreeWindow)
    requires
        w.proper(),
    ensures
        plain(w.checksum + seq![','] + cell_text(w.cell)),
        after_bytes(w.checksum + seq![','] + cell_text(w.cell), 5) == Some(cell_text(w.cell)),
{
    let s = w.checksum + seq![','] + cell_text(w.cell);
    lemma_plain_cell(w.cell);
    assert(plain(w.checksum));
    lemma_plain_concat(w.checksum, seq![',']);
    lemma_plain_concat(w.checksum + seq![','], cell_text(w.cell));
    assert forall|i: int| 0 <= i < 5 implies (#[trigger] s[i] as u32) < 0x80 by {
        if i < 4 {
            assert(s[i] == w.checksum[i]);
        }
    }
    lemma_chars_in_bytes(s, 5);
    assert(s.skip(5) =~= cell_text(w.cell));
}

/// The fields of a window stand in one line, and are what they should be.
pub proof fn lemma_window_fields(w: TreeWindow)
    requires
        w.proper(),
    ensures
        forall|i: int| 0 <= i < window_fields(w).len() ==> plain(#[trigger] window_fields(w)[i]),
        window_trouble(window_fields(w)) is None,
        id_in_field(window_fields(w), 0) == w.session_id,
        id_in_field(window_fields(w), 1) == w.window_id,
        number_in_field(window_fields(w), 2) == w.window_width,
        number_in_field(window_fields(w), 3) == w.window_height,
        is_one(window_fields(w), 4) == w.window_active,
        after_bytes(window_fields(w)[5], 5) == Some(cell_text(w.cell)),
{
    lemma_plain_mark('$', w.session_id);
    lemma_plain_mark('@', w.window_id);
    lemma_plain_number(w.window_width);
    lemma_plain_number(w.window_height);
    lemma_plain_flag(w.window_active);
    lemma_layout_field(w);
    law_layout_reads_back(w.cell, seq![]);
}

proof fn lemma_window_line(w: TreeWindow)
    requires
        w.proper(),
    ensures
        window_of_line(window_line(w)) == Ok::<WindowView, ListTrouble>(w.item()),
        window_line(w).len() > 0,
        !window_line(w).contains('\n'),
{
    reveal(window_of_line);
    let f = window_fields(w);
    lemma_window_fields(w);
    lemma_fields_found(f);
    lemma_line_has_no_end(f);
    law_layout_reads_back(w.cell, seq![]);
    assert(joined(f, ' ') == f[0] + seq![' '] + joined(f.skip(1), ' '));
}

proof fn lemma_window_lines(windows: Seq<TreeWindow>)
    requires
        forall|i: int| 0 <= i < windows.len() ==> (#[trigger] windows[i]).proper(),
    ensures
        windows_of_lines(windows.map_values(|w: TreeWindow| window_line(w))) == Ok::<
            Seq<WindowView>,
            ListTrouble,
        >(windows.map_values(|w: TreeWindow| w.item())),
    decreases windows.len(),
{
    let lines = windows.map_values(|w: TreeWindow| window_line(w));
    let items = windows.map_values(|w: TreeWindow| w.item());
    if windows.len() == 0 {
        assert(items =~= seq![]);
    } else {
        let front = windows.drop_last();
        assert forall|i: int| 0 <= i < front.len() implies (#[trigger] front[i]).proper() by {
            assert(windows[i].proper());
        }
        lemma_window_lines(front);
        assert(lines.drop_last() =~= front.map_values(|w: TreeWindow| window_line(w)));
        lemma_window_line(windows.last());
        assert(lines.last() == window_line(windows.last()));
        assert(front.map_values(|w: TreeWindow| w.item()).push(windows.last().item()) =~= items);
    }
}

/// The reply to the command that lists the windows reads back as the windows that tmux listed,
/// each with the steps that divide it, whatever the tree of its cells is.
pub proof fn law_window_list_reads_back(windows: Seq<TreeWindow>)
    requires
        forall|i: int| 0 <= i < windows.len() ==> (#[trigger] windows[i]).proper(),
    ensures
        window_list(lines_text(windows.map_values(|w: TreeWindow| window_line(w)))) == Ok::<
            Seq<WindowView>,
            ListTrouble,
        >(windows.map_values(|w: TreeWindow| w.item())),
{
    let lines = windows.map_values(|w: TreeWindow| window_line(w));
    assert forall|i: int| 0 <= i < lines.len() implies !(#[trigger] lines[i]).contains('\n') by {
        lemma_window_line(windows[i]);
    }
    lemma_lines_found(lines);
    lemma_window_lines(windows);
    assert(lines.push(seq![]).drop_last() =~= lines);
}

// ---------------------------------------------------------------------------
// Every list of windows
// ---------------------------------------------------------------------------

/// Whether every pane of a window is placed in it, and no layout step but the last is a single
/// pane.
pub open spec fn regular(w: WindowView) -> bool {
    &&& single_is_last(w.layout)
    &&& forall|l: int, p: int|
        0 <= l < w.layout.len() && 0 <= p < w.layout[l].panes().len() ==> (
        #[trigger] w.layout[l].panes()[p]).window_id == w.window_id
}

proof fn lemma_line_is_regular(line: Seq<char>)
    ensures
        window_of_line(line) matches Ok(w) ==> regular(w),
{
    reveal(window_of_line);
    if let Ok(w) = window_of_line(line) {
        let f = pieces(line, ' ');
        let none = Seq::<LayoutView>::empty();
        let layouts = read_layout(after_bytes(f[5], 5)->0, 0, none, None).layouts;
        law_single_pane_is_last(after_bytes(f[5], 5)->0, 0, none);
        assert(w.layout == placed_layouts(layouts, w.session_id, w.window_id));
        assert forall|k: int| 0 <= k < w.layout.len() implies #[trigger] w.layout[k]
            == layouts[k].placed(w.session_id, w.window_id) by {}
    }
}

proof fn lemma_lines_are_regular(lines: Seq<Seq<char>>)
    ensures
        windows_of_lines(lines) matches Ok(windows) ==> forall|i: int|
            0 <= i < windows.len() ==> regular(#[trigger] windows[i]),
    decreases lines.len(),
{
    if lines.len() > 0 {
        lemma_lines_are_regular(lines.drop_last());
        lemma_line_is_regular(lines.last());
    }
}

/// Whatever the reply to the command that lists the windows: in the windows that are read from it,
/// every pane is placed in its window, and no layout step but the last is a single pane.
pub proof fn law_listed_windows_are_regular(output: Seq<char>)
    ensures
        window_list(output) matches Ok(windows) ==> forall|i: int|
            0 <= i < windows.len() ==> regular(#[trigger] windows[i]),
{
    lemma_lines_are_regular(pieces(output, '\n'));
}

} // verus!
