//! What each field of a listed line is for, and which field is to blame for a line that is turned
//! down.

use crate::items::{LayoutView, PaneItem, WindowView};
use crate::layout::{read_layout, LayoutEnd, LayoutError};
use crate::listing::{
    bad_id, pane_of_line, pane_trouble, panes_of_lines, window_of_line, window_trouble,
    windows_of_lines, Field, ListError, ListFault, ListTrouble,
};
use crate::listing_laws::{
    lemma_fields_found, lemma_pane_fields, lemma_window_fields, pane_fields, plain, window_fields,
    TreeWindow,
};
use crate::text::{after_bytes, joined, lemma_chars_in_bytes, number_value, pieces, NumberError};
use vstd::prelude::*;

verus! {

// ---------------------------------------------------------------------------
// Fields
// ---------------------------------------------------------------------------

/// Whether two lines have the same fields from one place up to another.
pub open spec fn agree(f: Seq<Seq<char>>, g: Seq<Seq<char>>, from: int, to: int) -> bool {
    forall|i: int| from <= i < to ==> #[trigger] f[i] == g[i]
}

/// Whether every field stands in one line.
pub open spec fn all_plain(f: Seq<Seq<char>>) -> bool {
    forall|i: int| 0 <= i < f.len() ==> plain(#[trigger] f[i])
}

/// Whether a text starts with a mark of one byte and goes on like this.
pub open spec fn is_marked(s: Seq<char>, rest: Seq<char>) -> bool {
    s.len() == 1 + rest.len() && (s[0] as u32) < 0x80 && s.skip(1) == rest
}

/// Whether a text does not start with a mark of one byte.
pub open spec fn is_unmarked(s: Seq<char>) -> bool {
    s.len() == 0 || (s[0] as u32) >= 0x80
}

proof fn lemma_marked(s: Seq<char>, rest: Seq<char>)
    requires
        is_marked(s, rest),
    ensures
        after_bytes(s, 1) == Some(rest),
{
    lemma_chars_in_bytes(s, 1);
}

proof fn lemma_unmarked(s: Seq<char>)
    requires
        is_unmarked(s),
    ensures
        after_bytes(s, 1) is None,
{
}

/// The largest number that fits in a field: that of a flag is held in a `usize`.
pub open spec fn room(flag: bool) -> nat {
    if flag {
        usize::MAX as nat
    } else {
        u64::MAX as nat
    }
}

// ---------------------------------------------------------------------------
// Panes
// ---------------------------------------------------------------------------

/// The fields of a pane, by name.
pub open spec fn pane_names() -> Seq<Field> {
    seq![
        Field::SessionId,
        Field::WindowId,
        Field::PaneId,
        Field::PaneIndex,
        Field::CursorX,
        Field::CursorY,
        Field::PaneWidth,
        Field::PaneHeight,
        Field::PaneLeft,
        Field::PaneTop,
        Field::PaneActive,
    ]
}

/// What a pane has under a name, where that is a number.
pub open spec fn pane_number(p: PaneItem, field: Field) -> u64 {
    match field {
        Field::SessionId => p.session_id,
        Field::WindowId => p.window_id,
        Field::PaneId => p.pane_id,
        Field::PaneIndex => p._pane_index,
        Field::CursorX => p.cursor_x,
        Field::CursorY => p.cursor_y,
        Field::PaneWidth => p.pane_width,
        Field::PaneHeight => p.pane_height,
        Field::PaneLeft => p.pane_left,
        _ => p.pane_top,
    }
}

/// A line that ends too soon, with nothing wrong before its end, is turned down for the first field
/// that is not there, whatever stands in the fields with a mark.
pub proof fn law_short_pane_line_lacks_a_field(p: PaneItem, f: Seq<Seq<char>>)
    requires
        1 <= f.len() < pane_names().len(),
        all_plain(f),
        agree(f, pane_fields(p), 3, f.len() as int),
    ensures
        pane_of_line(joined(f, ' ')) == Err::<PaneItem, ListTrouble>(
            ListTrouble::Rejected(ListError::Missing(pane_names()[f.len() as int])),
        ),
{
    reveal(pane_of_line);
    lemma_fields_found(f);
    lemma_pane_fields(p);
    let g = pane_fields(p);
    assert(3 < f.len() ==> f[3] == g[3]);
    assert(4 < f.len() ==> f[4] == g[4]);
    assert(5 < f.len() ==> f[5] == g[5]);
    assert(6 < f.len() ==> f[6] == g[6]);
    assert(7 < f.len() ==> f[7] == g[7]);
    assert(8 < f.len() ==> f[8] == g[8]);
    assert(9 < f.len() ==> f[9] == g[9]);
}

/// Of the fields that should be plain numbers, the first that is none is what a line is turned down
/// for, whatever stands behind it and in the fields with a mark.
pub proof fn law_first_bad_number_of_a_pane_decides(
    p: PaneItem,
    f: Seq<Seq<char>>,
    k: int,
    e: NumberError,
)
    requires
        3 <= k < pane_names().len(),
        k < f.len(),
        all_plain(f),
        agree(f, pane_fields(p), 3, k),
        number_value(f[k], room(k == 10)) == Err::<nat, NumberError>(e),
    ensures
        pane_of_line(joined(f, ' ')) == Err::<PaneItem, ListTrouble>(
            ListTrouble::Rejected(ListError::Number(e)),
        ),
{
    reveal(pane_of_line);
    lemma_fields_found(f);
    lemma_pane_fields(p);
    let g = pane_fields(p);
    assert(3 < k ==> f[3] == g[3]);
    assert(4 < k ==> f[4] == g[4]);
    assert(5 < k ==> f[5] == g[5]);
    assert(6 < k ==> f[6] == g[6]);
    assert(7 < k ==> f[7] == g[7]);
    assert(8 < k ==> f[8] == g[8]);
    assert(9 < k ==> f[9] == g[9]);
}

/// Where the plain numbers are in order, the first of the fields with a mark that is not in order
/// decides. One without a mark makes the line unreadable.
pub proof fn law_first_pane_field_without_mark_decides(p: PaneItem, f: Seq<Seq<char>>, k: int)
    requires
        0 <= k < 3,
        pane_names().len() <= f.len(),
        all_plain(f),
        agree(f, pane_fields(p), 0, k),
        agree(f, pane_fields(p), 3, pane_names().len() as int),
        is_unmarked(f[k]),
    ensures
        pane_of_line(joined(f, ' ')) == Err::<PaneItem, ListTrouble>(
            ListTrouble::Fault(ListFault::NoMark),
        ),
{
    lemma_numbers_in_order(p, f, k);
    lemma_unmarked(f[k]);
    reveal(pane_of_line);
}

/// One with a mark and no number behind it has the line turned down.
pub proof fn law_first_pane_mark_without_number_decides(
    p: PaneItem,
    f: Seq<Seq<char>>,
    k: int,
    rest: Seq<char>,
    e: NumberError,
)
    requires
        0 <= k < 3,
        pane_names().len() <= f.len(),
        all_plain(f),
        agree(f, pane_fields(p), 0, k),
        agree(f, pane_fields(p), 3, pane_names().len() as int),
        is_marked(f[k], rest),
        number_value(rest, room(false)) == Err::<nat, NumberError>(e),
    ensures
        pane_of_line(joined(f, ' ')) == Err::<PaneItem, ListTrouble>(
            ListTrouble::Rejected(ListError::Number(e)),
        ),
{
    lemma_numbers_in_order(p, f, k);
    lemma_marked(f[k], rest);
    reveal(pane_of_line);
}

proof fn lemma_numbers_in_order(p: PaneItem, f: Seq<Seq<char>>, k: int)
    requires
        0 <= k < 3,
        pane_names().len() <= f.len(),
        all_plain(f),
        agree(f, pane_fields(p), 0, k),
        agree(f, pane_fields(p), 3, pane_names().len() as int),
    ensures
        pieces(joined(f, ' '), ' ') == f,
        bad_id(f, k) is Some ==> pane_trouble(f) == bad_id(f, k),
{
    lemma_fields_found(f);
    lemma_pane_fields(p);
    let g = pane_fields(p);
    assert(f[3] == g[3] && f[4] == g[4] && f[5] == g[5] && f[6] == g[6]);
    assert(f[7] == g[7] && f[8] == g[8] && f[9] == g[9] && f[10] == g[10]);
    assert(0 < k ==> f[0] == g[0]);
    assert(1 < k ==> f[1] == g[1]);
}

/// Each field is read for itself: where it is written otherwise, with another number in it, that
/// number is the only thing that is other about the pane. What stands behind the last field makes
/// no difference.
pub proof fn law_field_of_a_pane_is_read_alone(
    p: PaneItem,
    f: Seq<Seq<char>>,
    k: int,
    digits: Seq<char>,
    n: u64,
)
    requires
        0 <= k < 10,
        pane_names().len() <= f.len(),
        all_plain(f),
        agree(f, pane_fields(p).update(k, f[k]), 0, pane_names().len() as int),
        if k < 3 {
            is_marked(f[k], digits)
        } else {
            f[k] == digits
        },
        number_value(digits, room(false)) == Ok::<nat, NumberError>(n as nat),
    ensures
        pane_of_line(joined(f, ' ')) matches Ok(q) && {
            &&& pane_number(q, pane_names()[k]) == n
            &&& q.pane_active == p.pane_active
            &&& forall|j: int|
                0 <= j < 10 && j != k ==> pane_number(q, #[trigger] pane_names()[j]) == pane_number(
                    p,
                    pane_names()[j],
                )
        },
{
    reveal(pane_of_line);
    lemma_fields_found(f);
    lemma_pane_fields(p);
    let g = pane_fields(p).update(k, f[k]);
    assert(f[0] == g[0] && f[1] == g[1] && f[2] == g[2] && f[3] == g[3] && f[4] == g[4]);
    assert(f[5] == g[5] && f[6] == g[6] && f[7] == g[7] && f[8] == g[8] && f[9] == g[9]);
    assert(f[10] == g[10]);
    if k < 3 {
        lemma_marked(f[k], digits);
    }
}

/// The last field says that the pane is active where it is the number 1, and that it is not where it
/// is any other number.
pub proof fn law_pane_is_active_for_one(p: PaneItem, f: Seq<Seq<char>>, n: nat)
    requires
        pane_names().len() <= f.len(),
        all_plain(f),
        agree(f, pane_fields(p), 0, 10),
        number_value(f[10], room(true)) == Ok::<nat, NumberError>(n),
    ensures
        pane_of_line(joined(f, ' ')) == Ok::<PaneItem, ListTrouble>(
            PaneItem { pane_active: n == 1, ..p },
        ),
{
    reveal(pane_of_line);
    lemma_fields_found(f);
    lemma_pane_fields(p);
    let g = pane_fields(p);
    assert(f[0] == g[0] && f[1] == g[1] && f[2] == g[2] && f[3] == g[3] && f[4] == g[4]);
    assert(f[5] == g[5] && f[6] == g[6] && f[7] == g[7] && f[8] == g[8] && f[9] == g[9]);
}

// ---------------------------------------------------------------------------
// Lines of panes
// ---------------------------------------------------------------------------

/// Lines are read one after the other: where none is turned down, the panes of the first lines come
/// first; where one is, the first of them decides, whatever stands behind it.
pub proof fn law_pane_lines_are_read_in_order(a: Seq<Seq<char>>, b: Seq<Seq<char>>)
    ensures
        match (panes_of_lines(a), panes_of_lines(b)) {
            (Err(t), _) => panes_of_lines(a + b) == Err::<Seq<PaneItem>, ListTrouble>(t),
            (Ok(_), Err(t)) => panes_of_lines(a + b) == Err::<Seq<PaneItem>, ListTrouble>(t),
            (Ok(x), Ok(y)) => panes_of_lines(a + b) == Ok::<Seq<PaneItem>, ListTrouble>(x + y),
        },
    decreases b.len(),
{
    if b.len() == 0 {
        assert(a + b =~= a);
        if let Ok(x) = panes_of_lines(a) {
            assert(x + Seq::<PaneItem>::empty() =~= x);
        }
    } else {
        law_pane_lines_are_read_in_order(a, b.drop_last());
        assert((a + b).drop_last() =~= a + b.drop_last());
        assert((a + b).last() == b.last());
        if let (Ok(x), Ok(y)) = (panes_of_lines(a), panes_of_lines(b)) {
            let front = panes_of_lines(b.drop_last())->Ok_0;
            if b.last().len() > 0 {
                assert(x + y =~= (x + front).push(y.last()));
            }
        }
    }
}

/// An empty line stands for no pane, and any other line for one.
pub proof fn law_line_is_one_pane(line: Seq<char>)
    ensures
        panes_of_lines(seq![line]) == (if line.len() == 0 {
            Ok(seq![])
        } else {
            match pane_of_line(line) {
                Ok(pane) => Ok(seq![pane]),
                Err(t) => Err::<Seq<PaneItem>, ListTrouble>(t),
            }
        }),
{
    assert(seq![line].drop_last() =~= seq![]);
    reveal_with_fuel(panes_of_lines, 2);
    if let Ok(pane) = pane_of_line(line) {
        assert(Seq::<PaneItem>::empty().push(pane) =~= seq![pane]);
    }
}

// ---------------------------------------------------------------------------
// Windows
// ---------------------------------------------------------------------------

/// The fields of a window, by name.
pub open spec fn window_names() -> Seq<Field> {
    seq![
        Field::SessionId,
        Field::WindowId,
        Field::WindowWidth,
        Field::WindowHeight,
        Field::WindowActive,
        Field::WindowLayout,
    ]
}

/// A line that ends too soon, with nothing wrong before its end, is turned down for the first field
/// that is not there, whatever stands in the fields with a mark.
pub proof fn law_short_window_line_lacks_a_field(w: TreeWindow, f: Seq<Seq<char>>)
    requires
        w.proper(),
        1 <= f.len() < window_names().len(),
        all_plain(f),
        agree(f, window_fields(w), 2, f.len() as int),
    ensures
        window_of_line(joined(f, ' ')) == Err::<WindowView, ListTrouble>(
            ListTrouble::Rejected(ListError::Missing(window_names()[f.len() as int])),
        ),
{
    reveal(window_of_line);
    lemma_fields_found(f);
    lemma_window_fields(w);
    let g = window_fields(w);
    assert(2 < f.len() ==> f[2] == g[2]);
    assert(3 < f.len() ==> f[3] == g[3]);
    assert(4 < f.len() ==> f[4] == g[4]);
}

/// Of the fields that should be plain numbers, the first that is none is what a line is turned down
/// for, whatever stands behind it and in the fields with a mark.
pub proof fn law_first_bad_number_of_a_window_decides(
    w: TreeWindow,
    f: Seq<Seq<char>>,
    k: int,
    e: NumberError,
)
    requires
        w.proper(),
        2 <= k < 5,
        k < f.len(),
        all_plain(f),
        agree(f, window_fields(w), 2, k),
        number_value(f[k], room(k == 4)) == Err::<nat, NumberError>(e),
    ensures
        window_of_line(joined(f, ' ')) == Err::<WindowView, ListTrouble>(
            ListTrouble::Rejected(ListError::Number(e)),
        ),
{
    reveal(window_of_line);
    lemma_fields_found(f);
    lemma_window_fields(w);
    let g = window_fields(w);
    assert(2 < k ==> f[2] == g[2]);
    assert(3 < k ==> f[3] == g[3]);
}

proof fn lemma_window_numbers_in_order(w: TreeWindow, f: Seq<Seq<char>>, k: int)
    requires
        w.proper(),
        0 <= k < 2,
        window_names().len() <= f.len(),
        all_plain(f),
        agree(f, window_fields(w), 0, k),
        agree(f, window_fields(w), 2, 5),
    ensures
        pieces(joined(f, ' '), ' ') == f,
        bad_id(f, k) is Some ==> window_trouble(f) == bad_id(f, k),
{
    lemma_fields_found(f);
    lemma_window_fields(w);
    let g = window_fields(w);
    assert(f[2] == g[2] && f[3] == g[3] && f[4] == g[4]);
    assert(0 < k ==> f[0] == g[0]);
}

/// Where the plain numbers are in order, the first of the fields with a mark that is not in order
/// decides, whatever the layout. One without a mark makes the line unreadable.
pub proof fn law_first_window_field_without_mark_decides(w: TreeWindow, f: Seq<Seq<char>>, k: int)
    requires
        w.proper(),
        0 <= k < 2,
        window_names().len() <= f.len(),
        all_plain(f),
        agree(f, window_fields(w), 0, k),
        agree(f, window_fields(w), 2, 5),
        is_unmarked(f[k]),
    ensures
        window_of_line(joined(f, ' ')) == Err::<WindowView, ListTrouble>(
            ListTrouble::Fault(ListFault::NoMark),
        ),
{
    lemma_window_numbers_in_order(w, f, k);
    lemma_unmarked(f[k]);
    reveal(window_of_line);
}

/// One with a mark and no number behind it has the line turned down.
pub proof fn law_first_window_mark_without_number_decides(
    w: TreeWindow,
    f: Seq<Seq<char>>,
    k: int,
    rest: Seq<char>,
    e: NumberError,
)
    requires
        w.proper(),
        0 <= k < 2,
        window_names().len() <= f.len(),
        all_plain(f),
        agree(f, window_fields(w), 0, k),
        agree(f, window_fields(w), 2, 5),
        is_marked(f[k], rest),
        number_value(rest, room(false)) == Err::<nat, NumberError>(e),
    ensures
        window_of_line(joined(f, ' ')) == Err::<WindowView, ListTrouble>(
            ListTrouble::Rejected(ListError::Number(e)),
        ),
{
    lemma_window_numbers_in_order(w, f, k);
    lemma_marked(f[k], rest);
    reveal(window_of_line);
}

/// Each field is read for itself: where the number in it is another, that number is the only thing
/// that is other about the window, but for the panes of its layout, which are those of the session
/// and the window that the line names. The window is active where the fifth field is the number 1.
pub proof fn law_field_of_a_window_is_read_alone(
    w: TreeWindow,
    f: Seq<Seq<char>>,
    k: int,
    digits: Seq<char>,
    n: nat,
)
    requires
        w.proper(),
        0 <= k < 5,
        window_names().len() <= f.len(),
        all_plain(f),
        agree(f, window_fields(w).update(k, f[k]), 0, window_names().len() as int),
        if k < 2 {
            is_marked(f[k], digits)
        } else {
            f[k] == digits
        },
        number_value(digits, room(k == 4)) == Ok::<nat, NumberError>(n),
        n <= u64::MAX,
    ensures
        window_of_line(joined(f, ' ')) matches Ok(v) && {
            &&& v.session_id == (if k == 0 {
                n
            } else {
                w.session_id as nat
            })
            &&& v.window_id == (if k == 1 {
                n
            } else {
                w.window_id as nat
            })
            &&& v.window_width == (if k == 2 {
                n
            } else {
                w.window_width as nat
            })
            &&& v.window_height == (if k == 3 {
                n
            } else {
                w.window_height as nat
            })
            &&& v.window_active == (if k == 4 {
                n == 1
            } else {
                w.window_active
            })
        },
{
    reveal(window_of_line);
    lemma_fields_found(f);
    lemma_window_fields(w);
    let g = window_fields(w).update(k, f[k]);
    assert(f[0] == g[0] && f[1] == g[1] && f[2] == g[2] && f[3] == g[3] && f[4] == g[4]);
    assert(f[5] == g[5]);
    if k < 2 {
        lemma_marked(f[k], digits);
    }
}

/// Whether a layout step is another with its panes in the given session and window, and nothing
/// else about it changed.
pub open spec fn is_moved(
    step: LayoutView,
    from: LayoutView,
    session_id: u64,
    window_id: u64,
) -> bool {
    &&& step is SplitHorizontal <==> from is SplitHorizontal
    &&& step is SplitVertical <==> from is SplitVertical
    &&& step.panes().len() == from.panes().len()
    &&& forall|i: int|
        0 <= i < step.panes().len() ==> (#[trigger] step.panes()[i]) == (PaneItem {
            session_id,
            window_id,
            ..from.panes()[i]
        })
}

/// The layout of a window stands in the last field, behind five bytes of checksum. Where it can be
/// read, the window has its steps, with the panes in the session and the window that the line
/// names; where it cannot, that is what is wrong with the line.
pub proof fn law_layout_of_a_window_is_read(w: TreeWindow, f: Seq<Seq<char>>)
    requires
        w.proper(),
        window_names().len() <= f.len(),
        all_plain(f),
        agree(f, window_fields(w), 0, 5),
    ensures
        match after_bytes(f[5], 5) {
            None => window_of_line(joined(f, ' ')) == Err::<WindowView, ListTrouble>(
                ListTrouble::Fault(ListFault::NoChecksum),
            ),
            Some(layout) => {
                let read = read_layout(layout, 0, seq![], None);
                match read.end {
                    LayoutEnd::NotRight => window_of_line(joined(f, ' ')) == Err::<
                        WindowView,
                        ListTrouble,
                    >(ListTrouble::Rejected(ListError::Layout(LayoutError::NotRight))),
                    LayoutEnd::Fault(fault) => window_of_line(joined(f, ' ')) == Err::<
                        WindowView,
                        ListTrouble,
                    >(ListTrouble::Fault(ListFault::Layout(fault))),
                    LayoutEnd::Done(_) => window_of_line(joined(f, ' ')) matches Ok(v) && {
                        &&& v.session_id == w.session_id
                        &&& v.window_id == w.window_id
                        &&& v.window_width == w.window_width
                        &&& v.window_height == w.window_height
                        &&& v.window_active == w.window_active
                        &&& v.layout.len() == read.layouts.len()
                        &&& forall|l: int|
                            0 <= l < v.layout.len() ==> is_moved(
                                #[trigger] v.layout[l],
                                read.layouts[l],
                                w.session_id,
                                w.window_id,
                            )
                    },
                }
            },
        },
{
    reveal(window_of_line);
    lemma_fields_found(f);
    lemma_window_fields(w);
    let g = window_fields(w);
    assert(f[0] == g[0] && f[1] == g[1] && f[2] == g[2] && f[3] == g[3] && f[4] == g[4]);
}

// ---------------------------------------------------------------------------
// Lines of windows
// ---------------------------------------------------------------------------

/// Lines are read one after the other: where none is turned down, the windows of the first lines come
/// first; where one is, the first of them decides, whatever stands behind it.
pub proof fn law_window_lines_are_read_in_order(a: Seq<Seq<char>>, b: Seq<Seq<char>>)
    ensures
        match (windows_of_lines(a), windows_of_lines(b)) {
            (Err(t), _) => windows_of_lines(a + b) == Err::<Seq<WindowView>, ListTrouble>(t),
            (Ok(_), Err(t)) => windows_of_lines(a + b) == Err::<Seq<WindowView>, ListTrouble>(t),
            (Ok(x), Ok(y)) => windows_of_lines(a + b) == Ok::<Seq<WindowView>, ListTrouble>(x + y),
        },
    decreases b.len(),
{
    if b.len() == 0 {
        assert(a + b =~= a);
        if let Ok(x) = windows_of_lines(a) {
            assert(x + Seq::<WindowView>::empty() =~= x);
        }
    } else {
        law_window_lines_are_read_in_order(a, b.drop_last());
        assert((a + b).drop_last() =~= a + b.drop_last());
        assert((a + b).last() == b.last());
        if let (Ok(x), Ok(y)) = (windows_of_lines(a), windows_of_lines(b)) {
            let front = windows_of_lines(b.drop_last())->Ok_0;
            if b.last().len() > 0 {
                assert(x + y =~= (x + front).push(y.last()));
            }
        }
    }
}

/// An empty line stands for no window, and any other line for one.
pub proof fn law_line_is_one_window(line: Seq<char>)
    ensures
        windows_of_lines(seq![line]) == (if line.len() == 0 {
            Ok(seq![])
        } else {
            match window_of_line(line) {
                Ok(window) => Ok(seq![window]),
                Err(t) => Err::<Seq<WindowView>, ListTrouble>(t),
            }
        }),
{
    assert(seq![line].drop_last() =~= seq![]);
    reveal_with_fuel(windows_of_lines, 2);
    if let Ok(window) = window_of_line(line) {
        assert(Seq::<WindowView>::empty().push(window) =~= seq![window]);
    }
}

} // verus!
