//! The layout string of a window, such as `80x24,0,0{40x24,0,0,1,39x24,41,0,2}`.
//!
//! A cell is written as its width, height, left and top edge. A pane adds its number; a cell that
//! is divided adds the cells inside it, in braces where they stand side by side and in brackets
//! where they stand on top of each other.

use crate::items::{LayoutView, PaneItem, TmuxLayout};
use crate::text::{
    chars_of, digits_value, is_ascii_digit, parse_digits, NumberError,
};
use vstd::prelude::*;

verus! {

// ---------------------------------------------------------------------------
// Digits
// ---------------------------------------------------------------------------

/// The pattern that one decimal digit of any script matches.
pub const DIGIT_PATTERN: &'static str = "^\\d$";

/// Whether `pattern` matches somewhere in `text`.
pub uninterp spec fn pattern_matches(pattern: Seq<char>, text: Seq<char>) -> bool;

/// `fancy_regex::Regex::is_match`, on a pattern that compiles and that the crate hands on to an
/// engine without a step limit: whether the pattern matches in the text is fixed by the two alone.
/// Which characters beyond ASCII are digits is not stated.
#[verifier::external_body]
fn is_match(pattern: &str, text: &str) -> (found: bool)
    requires
        pattern@ == DIGIT_PATTERN@,
    ensures
        found == pattern_matches(pattern@, text@),
{
    fancy_regex::Regex::new(pattern).unwrap().is_match(text).unwrap()
}

/// The characters that make up a number in a layout string: the decimal digits, of any script.
pub open spec fn is_digit(c: char) -> bool {
    if (c as u32) < 0x80 {
        is_ascii_digit(c)
    } else {
        pattern_matches(DIGIT_PATTERN@, seq![c])
    }
}

fn digit(c: char) -> (yes: bool)
    ensures
        yes == is_digit(c),
{
    if (c as u32) < 0x80 {
        '0' <= c && c <= '9'
    } else {
        let mut text = String::new();
        text.push(c);
        assert(text@ == seq![c]);
        is_match(DIGIT_PATTERN, text.as_str())
    }
}

/// Where the digits that start at `from` end.
pub open spec fn digits_end(s: Seq<char>, from: int) -> int
    decreases s.len() - from,
{
    if 0 <= from < s.len() && is_digit(s[from]) {
        digits_end(s, from + 1)
    } else {
        from
    }
}

/// Where the digits that start at `from` end, if there are any.
pub open spec fn number_end(s: Seq<char>, from: int) -> Option<int> {
    if digits_end(s, from) > from {
        Some(digits_end(s, from))
    } else {
        None
    }
}

/// Where the digits that start at `from` end, if there are any and `mark` follows.
pub open spec fn number_before(s: Seq<char>, from: int, mark: char) -> Option<int> {
    match number_end(s, from) {
        Some(end) if end < s.len() && s[end] == mark => Some(end),
        _ => None,
    }
}

pub proof fn lemma_digits_end(s: Seq<char>, from: int)
    requires
        0 <= from <= s.len(),
    ensures
        from <= digits_end(s, from) <= s.len(),
        forall|i: int| from <= i < digits_end(s, from) ==> is_digit(#[trigger] s[i]),
        digits_end(s, from) < s.len() ==> !is_digit(s[digits_end(s, from)]),
    decreases s.len() - from,
{
    if from < s.len() && is_digit(s[from]) {
        lemma_digits_end(s, from + 1);
    }
}

fn scan_digits(s: &[char], from: usize) -> (end: usize)
    requires
        from <= s.len(),
    ensures
        end == digits_end(s@, from as int),
        from <= end <= s.len(),
{
    let mut end: usize = from;
    while end < s.len() && digit(s[end])
        invariant
            from <= end <= s.len(),
            digits_end(s@, from as int) == digits_end(s@, end as int),
        decreases s.len() - end,
    {
        end = end + 1;
    }
    end
}

// ---------------------------------------------------------------------------
// Cells
// ---------------------------------------------------------------------------

/// Where the numbers of a cell stand: width from `start` to `width`, height from `width + 1` to
/// `height`, left edge from `height + 1` to `left`, top edge from `left + 1` to `top`.
pub struct CellSpans {
    pub start: int,
    pub width: int,
    pub height: int,
    pub left: int,
    pub top: int,
}

/// The cell at the beginning of a text, after a comma or none.
#[verifier::opaque]
pub open spec fn cell_spans(s: Seq<char>) -> Option<CellSpans> {
    let start: int = if s.len() > 0 && s[0] == ',' {
        1
    } else {
        0
    };
    match number_before(s, start, 'x') {
        None => None,
        Some(width) => match number_before(s, width + 1, ',') {
            None => None,
            Some(height) => match number_before(s, height + 1, ',') {
                None => None,
                Some(left) => match number_end(s, left + 1) {
                    None => None,
                    Some(top) => Some(CellSpans { start, width, height, left, top }),
                },
            },
        },
    }
}

/// Where the pane number that follows a cell ends, if one follows.
pub open spec fn id_end(s: Seq<char>, cell: CellSpans) -> Option<int> {
    if cell.top < s.len() && s[cell.top] == ',' {
        number_end(s, cell.top + 1)
    } else {
        None
    }
}

/// A pane of which only the place in its window is known.
pub open spec fn bare_pane(id: u64, width: u64, height: u64, left: u64, top: u64) -> PaneItem {
    PaneItem {
        session_id: 0,
        window_id: 0,
        pane_id: id,
        _pane_index: 0,
        cursor_x: 0,
        cursor_y: 0,
        pane_width: width,
        pane_height: height,
        pane_left: left,
        pane_top: top,
        pane_active: false,
    }
}

/// The number that a part of the text stands for.
pub open spec fn number_at(s: Seq<char>, from: int, end: int) -> Result<nat, NumberError> {
    digits_value(s.subrange(from, end), u64::MAX as nat)
}

/// The pane at the beginning of a text.
pub enum PaneAt {
    /// No cell stands there.
    Absent,
    /// A cell stands there, with a number that does not fit.
    BadNumber,
    /// A cell stands there. A cell without a pane number has number 0.
    Pane(PaneItem),
}

pub open spec fn pane_at(s: Seq<char>) -> PaneAt {
    match cell_spans(s) {
        None => PaneAt::Absent,
        Some(cell) => {
            let id = match id_end(s, cell) {
                Some(end) => number_at(s, cell.top + 1, end),
                None => Ok(0),
            };
            match (
                number_at(s, cell.start, cell.width),
                number_at(s, cell.width + 1, cell.height),
                number_at(s, cell.height + 1, cell.left),
                number_at(s, cell.left + 1, cell.top),
                id,
            ) {
                (Ok(width), Ok(height), Ok(left), Ok(top), Ok(id)) => PaneAt::Pane(
                    bare_pane(id as u64, width as u64, height as u64, left as u64, top as u64),
                ),
                _ => PaneAt::BadNumber,
            }
        },
    }
}

pub proof fn lemma_cell_spans(s: Seq<char>)
    ensures
        cell_spans(s) matches Some(c) ==> 0 <= c.start < c.width < c.height < c.left < c.top
            <= s.len() && c.height >= c.width + 2 && c.left >= c.height + 2 && c.top >= c.left + 2,
        cell_spans(s) is Some ==> s[0] == ',' || is_digit(s[0]),
        cell_spans(s) matches Some(c) ==> (id_end(s, c) matches Some(e) ==> c.top + 2 <= e
            <= s.len()),
{
    reveal(cell_spans);
    if s.len() > 0 {
        let start: int = if s[0] == ',' {
            1
        } else {
            0
        };
        lemma_digits_end(s, start);
        if let Some(w) = number_before(s, start, 'x') {
            lemma_digits_end(s, w + 1);
            if let Some(h) = number_before(s, w + 1, ',') {
                lemma_digits_end(s, h + 1);
                if let Some(l) = number_before(s, h + 1, ',') {
                    lemma_digits_end(s, l + 1);
                    if let Some(t) = number_end(s, l + 1) {
                        if t < s.len() {
                            lemma_digits_end(s, t + 1);
                        }
                    }
                }
            }
        }
    }
}

/// What stands at the beginning of a text, with the places where its cell and its pane number end.
enum PaneScan {
    Absent,
    BadNumber { top: usize, end: Option<usize> },
    Pane { pane: PaneItem, top: usize, end: Option<usize> },
}

fn scan_number(s: &[char], from: usize, mark: char) -> (end: Option<usize>)
    requires
        from <= s.len(),
    ensures
        end is Some <==> number_before(s@, from as int, mark) is Some,
        end matches Some(e) ==> number_before(s@, from as int, mark) == Some(e as int) && from < e
            < s.len(),
{
    let e = scan_digits(s, from);
    if e > from && e < s.len() && s[e] == mark {
        Some(e)
    } else {
        None
    }
}

fn number_in(s: &[char], from: usize, end: usize) -> (value: Option<u64>)
    requires
        from <= end <= s.len(),
    ensures
        value is Some <==> number_at(s@, from as int, end as int) is Ok,
        value matches Some(v) ==> number_at(s@, from as int, end as int) == Ok::<nat, NumberError>(
            v as nat,
        ),
{
    match parse_digits(vstd::slice::slice_subrange(s, from, end), u64::MAX) {
        Ok(v) => Some(v),
        Err(_) => None,
    }
}

fn scan_pane(s: &[char]) -> (found: PaneScan)
    ensures
        match found {
            PaneScan::Absent => cell_spans(s@) is None && pane_at(s@) == PaneAt::Absent,
            PaneScan::BadNumber { top, end } => {
                &&& pane_at(s@) == PaneAt::BadNumber
                &&& cell_spans(s@) matches Some(c) && c.top == top && id_end(s@, c) == (match end {
                    Some(e) => Some(e as int),
                    None => None,
                })
            },
            PaneScan::Pane { pane, top, end } => {
                &&& pane_at(s@) == PaneAt::Pane(pane)
                &&& cell_spans(s@) matches Some(c) && c.top == top && id_end(s@, c) == (match end {
                    Some(e) => Some(e as int),
                    None => None,
                })
            },
        },
{
    proof {
        reveal(cell_spans);
        lemma_cell_spans(s@);
    }
    let start: usize = if s.len() > 0 && s[0] == ',' {
        1
    } else {
        0
    };
    let width = match scan_number(s, start, 'x') {
        Some(e) => e,
        None => return PaneScan::Absent,
    };
    let height = match scan_number(s, width + 1, ',') {
        Some(e) => e,
        None => return PaneScan::Absent,
    };
    let left = match scan_number(s, height + 1, ',') {
        Some(e) => e,
        None => return PaneScan::Absent,
    };
    let top = scan_digits(s, left + 1);
    if top == left + 1 {
        return PaneScan::Absent;
    }
    let mut end: Option<usize> = None;
    let mut id = Some(0u64);
    if top < s.len() && s[top] == ',' {
        let e = scan_digits(s, top + 1);
        if e > top + 1 {
            end = Some(e);
            id = number_in(s, top + 1, e);
        }
    }
    match (
        number_in(s, start, width),
        number_in(s, width + 1, height),
        number_in(s, height + 1, left),
        number_in(s, left + 1, top),
        id,
    ) {
        (Some(w), Some(h), Some(l), Some(t), Some(i)) => PaneScan::Pane {
            pane: PaneItem {
                session_id: 0,
                window_id: 0,
                pane_id: i,
                _pane_index: 0,
                cursor_x: 0,
                cursor_y: 0,
                pane_width: w,
                pane_height: h,
                pane_left: l,
                pane_top: t,
                pane_active: false,
            },
            top,
            end,
        },
        _ => PaneScan::BadNumber { top, end },
    }
}

// ---------------------------------------------------------------------------
// Reading one pane
// ---------------------------------------------------------------------------

/// Why a layout is turned down.
#[derive(Debug, Clone, Copy, PartialEq, Eq, Structural)]
pub enum LayoutError {
    /// The text does not start with a cell.
    WrongPaneFormat,
    /// A divided cell follows a layout that is one pane.
    NotRight,
}

impl LayoutError {
    pub open spec fn words(self) -> Seq<char> {
        match self {
            LayoutError::WrongPaneFormat => "Wrong pane layout format"@,
            LayoutError::NotRight => "The tmux layout is not right"@,
        }
    }

    /// The error in words.
    pub fn message(&self) -> (words: String)
        ensures
            words@ == self.words(),
    {
        match self {
            LayoutError::WrongPaneFormat => "Wrong pane layout format".to_owned(),
            LayoutError::NotRight => "The tmux layout is not right".to_owned(),
        }
    }
}

/// Whether the numbers of the cell that a text starts with, if there is one, fit.
pub fn pane_readable(layout: &str) -> (yes: bool)
    ensures
        yes == !(pane_at(layout@) is BadNumber),
{
    let chars = chars_of(layout);
    match scan_pane(chars.as_slice()) {
        PaneScan::BadNumber { .. } => false,
        _ => true,
    }
}

/// Reads the pane that a text starts with. What follows it is left alone.
pub fn parse_pane(layout: &str) -> (pane: Result<PaneItem, LayoutError>)
    requires
        !(pane_at(layout@) is BadNumber),
    ensures
        match pane_at(layout@) {
            PaneAt::Pane(p) => pane == Ok::<PaneItem, LayoutError>(p),
            _ => pane == Err::<PaneItem, LayoutError>(LayoutError::WrongPaneFormat),
        },
{
    let chars = chars_of(layout);
    match scan_pane(chars.as_slice()) {
        PaneScan::Pane { pane, .. } => Ok(pane),
        _ => Err(LayoutError::WrongPaneFormat),
    }
}

/// Reads the pane that a text starts with, where the numbers of its cell fit.
pub fn try_parse_pane(layout: &str) -> (pane: Option<Result<PaneItem, LayoutError>>)
    ensures
        match pane_at(layout@) {
            PaneAt::Pane(p) => pane == Some(Ok::<PaneItem, LayoutError>(p)),
            PaneAt::Absent => pane == Some(
                Err::<PaneItem, LayoutError>(LayoutError::WrongPaneFormat),
            ),
            PaneAt::BadNumber => pane is None,
        },
{
    if pane_readable(layout) {
        Some(parse_pane(layout))
    } else {
        None
    }
}

// ---------------------------------------------------------------------------
// Reading a whole layout
// ---------------------------------------------------------------------------

/// What makes a layout unreadable.
#[derive(Debug, Clone, Copy, PartialEq, Eq, Structural)]
pub enum LayoutFault {
    /// A number does not fit in 64 bits, or is not written in ASCII digits.
    Number,
    /// A divided cell is closed with fewer than one cell in it.
    EmptySplit,
    /// A divided cell inside another one is never closed.
    UnclosedSplit,
    /// Neither a cell nor the end of a divided cell stands where one of them must.
    Stuck,
}

/// How the reading of a layout ends.
#[derive(Debug, Clone, Copy, PartialEq, Eq, Structural)]
pub enum LayoutEnd {
    /// With so many characters read; 0 where the text ended inside a divided cell or after one.
    Done(usize),
    /// With the layout turned down.
    NotRight,
    /// With a text that cannot be read.
    Fault(LayoutFault),
}

/// The model of a reading: how it ends, and the layout steps that there are by then.
#[verifier::ext_equal]
pub struct LayoutOutcome {
    pub end: LayoutEnd,
    pub layouts: Seq<LayoutView>,
}

/// How long the beginning of a divided cell is, where the text starts with one.
pub open spec fn opening(s: Seq<char>) -> Option<int> {
    match cell_spans(s) {
        Some(c) if c.top < s.len() && (s[c.top] == '{' || s[c.top] == '|' || s[c.top] == '[') => Some(
            c.top + 1,
        ),
        _ => None,
    }
}

/// How long a pane is, where the text starts with one.
pub open spec fn pane_len(s: Seq<char>) -> Option<int> {
    match cell_spans(s) {
        Some(c) => id_end(s, c),
        None => None,
    }
}

/// The panes of a divided cell once it is closed. `inside` holds the cell itself and the panes
/// found in it; the cell takes the number of the last one, which is thereby dealt with.
pub open spec fn closed_split(inside: Seq<PaneItem>) -> Option<Seq<PaneItem>> {
    if inside.len() < 2 {
        None
    } else {
        Some(
            inside.drop_last().update(
                0,
                PaneItem { pane_id: inside.last().pane_id, ..inside[0] },
            ),
        )
    }
}

/// The first pane of the first layout step, for the cell around it.
pub enum Inner {
    Missing,
    Single,
    Empty,
    Pane(PaneItem),
}

pub open spec fn first_inner(layouts: Seq<LayoutView>) -> Inner {
    if layouts.len() == 0 {
        Inner::Missing
    } else {
        match layouts[0] {
            LayoutView::SinglePane(_) => Inner::Single,
            LayoutView::SplitHorizontal(panes) | LayoutView::SplitVertical(panes) => {
                if panes.len() == 0 {
                    Inner::Empty
                } else {
                    Inner::Pane(panes[0])
                }
            },
        }
    }
}

/// Reads `s`, of which `parsed` characters came before, inside the divided cell `stack` or, where
/// there is none, at the outermost level. Each divided cell that is closed goes to the front of
/// `layouts`, and hands its first pane to the cell around it.
#[verifier::opaque]
pub open spec fn read_layout(
    s: Seq<char>,
    parsed: nat,
    layouts: Seq<LayoutView>,
    stack: Option<Seq<PaneItem>>,
) -> LayoutOutcome
    decreases s.len(),
{
    if s.len() == 0 {
        LayoutOutcome { end: LayoutEnd::Done(0), layouts }
    } else if let Some(n) = opening(s) {
        proof {
            lemma_cell_spans(s);
        }
        match pane_at(s) {
            PaneAt::Pane(cell) => {
                let inner = read_layout(s.skip(n), 0, layouts, Some(seq![cell]));
                match inner.end {
                    LayoutEnd::Done(m) if n + m <= s.len() => match stack {
                        None => read_layout(
                            s.skip(n + m),
                            (parsed + n + m) as nat,
                            inner.layouts,
                            None,
                        ),
                        Some(inside) => match first_inner(inner.layouts) {
                            Inner::Pane(pane) => read_layout(
                                s.skip(n + m),
                                (parsed + n + m) as nat,
                                inner.layouts,
                                Some(inside.push(pane)),
                            ),
                            Inner::Single => LayoutOutcome {
                                end: LayoutEnd::NotRight,
                                layouts: inner.layouts,
                            },
                            Inner::Missing => LayoutOutcome {
                                end: LayoutEnd::Fault(LayoutFault::UnclosedSplit),
                                layouts: inner.layouts,
                            },
                            Inner::Empty => LayoutOutcome {
                                end: LayoutEnd::Fault(LayoutFault::EmptySplit),
                                layouts: inner.layouts,
                            },
                        },
                    },
                    _ => inner,
                }
            },
            _ => LayoutOutcome { end: LayoutEnd::Fault(LayoutFault::Number), layouts },
        }
    } else if let Some(n) = pane_len(s) {
        proof {
            lemma_cell_spans(s);
        }
        match pane_at(s) {
            PaneAt::Pane(pane) => match stack {
                Some(inside) => read_layout(
                    s.skip(n),
                    (parsed + n) as nat,
                    layouts,
                    Some(inside.push(pane)),
                ),
                None => LayoutOutcome {
                    end: LayoutEnd::Done((parsed + n) as usize),
                    layouts: layouts.push(LayoutView::SinglePane(pane)),
                },
            },
            _ => LayoutOutcome { end: LayoutEnd::Fault(LayoutFault::Number), layouts },
        }
    } else if s[0] == '}' && stack is Some {
        match closed_split(stack->0) {
            Some(panes) => LayoutOutcome {
                end: LayoutEnd::Done((parsed + 1) as usize),
                layouts: seq![LayoutView::SplitHorizontal(panes)] + layouts,
            },
            None => LayoutOutcome { end: LayoutEnd::Fault(LayoutFault::EmptySplit), layouts },
        }
    } else if s[0] == ']' && stack is Some {
        match closed_split(stack->0) {
            Some(panes) => LayoutOutcome {
                end: LayoutEnd::Done((parsed + 1) as usize),
                layouts: seq![LayoutView::SplitVertical(panes)] + layouts,
            },
            None => LayoutOutcome { end: LayoutEnd::Fault(LayoutFault::EmptySplit), layouts },
        }
    } else {
        LayoutOutcome { end: LayoutEnd::Fault(LayoutFault::Stuck), layouts }
    }
}

/// The reading of a pane inside a divided cell.
pub proof fn lemma_read_inner_pane(
    s: Seq<char>,
    n: int,
    pane: PaneItem,
    parsed: nat,
    layouts: Seq<LayoutView>,
    inside: Seq<PaneItem>,
)
    requires
        opening(s) is None,
        pane_len(s) == Some(n),
        pane_at(s) == PaneAt::Pane(pane),
    ensures
        read_layout(s, parsed, layouts, Some(inside)) == read_layout(
            s.skip(n),
            (parsed + n) as nat,
            layouts,
            Some(inside.push(pane)),
        ),
{
    lemma_cell_spans(s);
    reveal_with_fuel(read_layout, 1);
}

/// The reading of a pane at the outermost level.
pub proof fn lemma_read_outer_pane(
    s: Seq<char>,
    n: int,
    pane: PaneItem,
    parsed: nat,
    layouts: Seq<LayoutView>,
)
    requires
        opening(s) is None,
        pane_len(s) == Some(n),
        pane_at(s) == PaneAt::Pane(pane),
    ensures
        read_layout(s, parsed, layouts, None) == (LayoutOutcome {
            end: LayoutEnd::Done((parsed + n) as usize),
            layouts: layouts.push(LayoutView::SinglePane(pane)),
        }),
{
    lemma_cell_spans(s);
    reveal_with_fuel(read_layout, 1);
}

/// The reading of a divided cell inside another one, once its inside is read.
pub proof fn lemma_read_inner_split(
    s: Seq<char>,
    n: int,
    cell: PaneItem,
    m: usize,
    pane: PaneItem,
    parsed: nat,
    layouts: Seq<LayoutView>,
    inside: Seq<PaneItem>,
)
    requires
        opening(s) == Some(n),
        pane_at(s) == PaneAt::Pane(cell),
        read_layout(s.skip(n), 0, layouts, Some(seq![cell])).end == LayoutEnd::Done(m),
        n + m <= s.len(),
        first_inner(read_layout(s.skip(n), 0, layouts, Some(seq![cell])).layouts) == Inner::Pane(
            pane,
        ),
    ensures
        read_layout(s, parsed, layouts, Some(inside)) == read_layout(
            s.skip(n + m),
            (parsed + n + m) as nat,
            read_layout(s.skip(n), 0, layouts, Some(seq![cell])).layouts,
            Some(inside.push(pane)),
        ),
{
    lemma_cell_spans(s);
    reveal_with_fuel(read_layout, 1);
}

/// The reading of a divided cell at the outermost level, once its inside is read.
pub proof fn lemma_read_outer_split(
    s: Seq<char>,
    n: int,
    cell: PaneItem,
    m: usize,
    parsed: nat,
    layouts: Seq<LayoutView>,
)
    requires
        opening(s) == Some(n),
        pane_at(s) == PaneAt::Pane(cell),
        read_layout(s.skip(n), 0, layouts, Some(seq![cell])).end == LayoutEnd::Done(m),
        n + m <= s.len(),
    ensures
        read_layout(s, parsed, layouts, None) == read_layout(
            s.skip(n + m),
            (parsed + n + m) as nat,
            read_layout(s.skip(n), 0, layouts, Some(seq![cell])).layouts,
            None,
        ),
{
    lemma_cell_spans(s);
    reveal_with_fuel(read_layout, 1);
}

/// The reading of the end of a divided cell.
pub proof fn lemma_read_close(
    s: Seq<char>,
    parsed: nat,
    layouts: Seq<LayoutView>,
    inside: Seq<PaneItem>,
)
    requires
        s.len() > 0,
        s[0] == '}' || s[0] == ']',
        inside.len() >= 2,
    ensures
        read_layout(s, parsed, layouts, Some(inside)) == (LayoutOutcome {
            end: LayoutEnd::Done((parsed + 1) as usize),
            layouts: seq![
                if s[0] == '}' {
                    LayoutView::SplitHorizontal(closed_split(inside)->0)
                } else {
                    LayoutView::SplitVertical(closed_split(inside)->0)
                },
            ] + layouts,
        }),
{
    reveal(cell_spans);
    assert(digits_end(s, 0) == 0);
    assert(cell_spans(s) is None);
    reveal_with_fuel(read_layout, 1);
}

/// The end of the text ends the reading.
pub proof fn lemma_read_end(
    parsed: nat,
    s: Seq<char>,
    layouts: Seq<LayoutView>,
    stack: Option<Seq<PaneItem>>,
)
    requires
        s.len() == 0,
    ensures
        read_layout(s, parsed, layouts, stack) == (LayoutOutcome {
            end: LayoutEnd::Done(0),
            layouts,
        }),
{
    reveal_with_fuel(read_layout, 1);
}

/// A reading never claims more characters than there are.
pub proof fn lemma_read_within(
    s: Seq<char>,
    parsed: nat,
    layouts: Seq<LayoutView>,
    stack: Option<Seq<PaneItem>>,
)
    requires
        parsed + s.len() <= usize::MAX,
    ensures
        read_layout(s, parsed, layouts, stack).end matches LayoutEnd::Done(m) ==> m <= parsed
            + s.len(),
    decreases s.len(),
{
    reveal_with_fuel(read_layout, 1);
    lemma_cell_spans(s);
    if s.len() == 0 {
    } else if let Some(n) = opening(s) {
        if let PaneAt::Pane(cell) = pane_at(s) {
            let inner = read_layout(s.skip(n), 0, layouts, Some(seq![cell]));
            lemma_read_within(s.skip(n), 0, layouts, Some(seq![cell]));
            if let LayoutEnd::Done(m) = inner.end {
                match stack {
                    None => {
                        lemma_read_within(
                            s.skip(n + m),
                            (parsed + n + m) as nat,
                            inner.layouts,
                            None,
                        );
                    },
                    Some(inside) => {
                        if let Inner::Pane(pane) = first_inner(inner.layouts) {
                            lemma_read_within(
                                s.skip(n + m),
                                (parsed + n + m) as nat,
                                inner.layouts,
                                Some(inside.push(pane)),
                            );
                        }
                    },
                }
            }
        }
    } else if let Some(n) = pane_len(s) {
        if let PaneAt::Pane(pane) = pane_at(s) {
            if let Some(inside) = stack {
                lemma_read_within(s.skip(n), (parsed + n) as nat, layouts, Some(inside.push(pane)));
            }
        }
    }
}

/// The model of an optional list of panes.
pub open spec fn stack_view(stack: Option<Vec<PaneItem>>) -> Option<Seq<PaneItem>> {
    match stack {
        Some(panes) => Some(panes@),
        None => None,
    }
}

fn first_inner_pane(layouts: &Vec<TmuxLayout>) -> (inner: Result<PaneItem, LayoutEnd>)
    ensures
        match first_inner(layouts.deep_view()) {
            Inner::Pane(p) => inner == Ok::<PaneItem, LayoutEnd>(p),
            Inner::Single => inner == Err::<PaneItem, LayoutEnd>(LayoutEnd::NotRight),
            Inner::Missing => inner == Err::<PaneItem, LayoutEnd>(
                LayoutEnd::Fault(LayoutFault::UnclosedSplit),
            ),
            Inner::Empty => inner == Err::<PaneItem, LayoutEnd>(
                LayoutEnd::Fault(LayoutFault::EmptySplit),
            ),
        },
{
    if layouts.len() == 0 {
        return Err(LayoutEnd::Fault(LayoutFault::UnclosedSplit));
    }
    match &layouts[0] {
        TmuxLayout::SinglePane(_) => Err(LayoutEnd::NotRight),
        TmuxLayout::SplitHorizontal(panes) => {
            if panes.len() == 0 {
                Err(LayoutEnd::Fault(LayoutFault::EmptySplit))
            } else {
                Ok(panes[0])
            }
        },
        TmuxLayout::SplitVertical(panes) => {
            if panes.len() == 0 {
                Err(LayoutEnd::Fault(LayoutFault::EmptySplit))
            } else {
                Ok(panes[0])
            }
        },
    }
}

fn close_split(inside: &mut Vec<PaneItem>) -> (closed: bool)
    ensures
        closed <==> closed_split(old(inside)@) is Some,
        closed ==> closed_split(old(inside)@) == Some(final(inside)@),
{
    if inside.len() < 2 {
        return false;
    }
    let last = inside.pop().unwrap();
    let mut first = inside[0];
    first.pane_id = last.pane_id;
    inside.set(0, first);
    true
}

/// How the reading of a layout ends, for any characters.
pub(crate) fn read(
    s: &[char],
    layouts: &mut Vec<TmuxLayout>,
    stack: Option<Vec<PaneItem>>,
) -> (end: LayoutEnd)
    ensures
        read_layout(s@, 0, old(layouts).deep_view(), stack_view(stack)) == (LayoutOutcome {
            end,
            layouts: final(layouts).deep_view(),
        }),
    decreases s.len(),
{
    let ghost whole = read_layout(s@, 0, layouts.deep_view(), stack_view(stack));
    let (nested, mut inside): (bool, Vec<PaneItem>) = match stack {
        Some(panes) => (true, panes),
        None => (false, Vec::new()),
    };
    let mut from: usize = 0;
    assert(s@.skip(0) == s@);
    while from < s.len()
        invariant
            from <= s.len(),
            whole == read_layout(s@, 0, old(layouts).deep_view(), stack_view(stack)),
            whole == read_layout(
                s@.skip(from as int),
                from as nat,
                layouts.deep_view(),
                if nested {
                    Some(inside@)
                } else {
                    None
                },
            ),
        decreases s.len() - from,
    {
        let rest = vstd::slice::slice_subrange(s, from, s.len());
        assert(rest@ == s@.skip(from as int));
        proof {
            reveal_with_fuel(read_layout, 1);
            lemma_cell_spans(rest@);
        }
        let ghost before = layouts.deep_view();
        let (found, top, end): (Option<PaneItem>, usize, Option<usize>) = match scan_pane(rest) {
            PaneScan::Absent => {
                if !nested || !(rest[0] == '}' || rest[0] == ']') {
                    return LayoutEnd::Fault(LayoutFault::Stuck);
                }
                let horizontal = rest[0] == '}';
                if !close_split(&mut inside) {
                    return LayoutEnd::Fault(LayoutFault::EmptySplit);
                }
                if horizontal {
                    layouts.insert(0, TmuxLayout::SplitHorizontal(inside));
                } else {
                    layouts.insert(0, TmuxLayout::SplitVertical(inside));
                }
                assert(layouts.deep_view() =~= seq![layouts@[0].deep_view()] + before);
                return LayoutEnd::Done(from + 1);
            },
            PaneScan::BadNumber { top, end } => (None, top, end),
            PaneScan::Pane { pane, top, end } => (Some(pane), top, end),
        };
        if top < rest.len() && (rest[top] == '{' || rest[top] == '|' || rest[top] == '[') {
            let cell = match found {
                Some(pane) => pane,
                None => return LayoutEnd::Fault(LayoutFault::Number),
            };
            let n: usize = top + 1;
            let tail = vstd::slice::slice_subrange(rest, n, rest.len());
            assert(tail@ == rest@.skip(n as int));
            let mut first: Vec<PaneItem> = Vec::new();
            first.push(cell);
            assert(first@ == seq![cell]);
            proof {
                lemma_read_within(tail@, 0, before, Some(seq![cell]));
            }
            let m: usize = match read(tail, layouts, Some(first)) {
                LayoutEnd::Done(m) => m,
                other => return other,
            };
            if nested {
                match first_inner_pane(layouts) {
                    Ok(pane) => {
                        inside.push(pane);
                    },
                    Err(other) => return other,
                }
            }
            assert(rest@.skip(n + m) == s@.skip(from + n + m));
            from = from + n + m;
        } else if let Some(n) = end {
            let pane = match found {
                Some(pane) => pane,
                None => return LayoutEnd::Fault(LayoutFault::Number),
            };
            if nested {
                inside.push(pane);
                assert(rest@.skip(n as int) == s@.skip(from + n));
                from = from + n;
            } else {
                layouts.push(TmuxLayout::SinglePane(pane));
                assert(layouts.deep_view() =~= before.push(LayoutView::SinglePane(pane)));
                return LayoutEnd::Done(from + n);
            }
        } else {
            return LayoutEnd::Fault(LayoutFault::Stuck);
        }
    }
    proof {
        reveal_with_fuel(read_layout, 1);
    }
    LayoutEnd::Done(0)
}

/// How the reading of a layout ends, for any text.
pub fn try_parse_layout(
    layout: &str,
    result: &mut Vec<TmuxLayout>,
    stack: Option<Vec<PaneItem>>,
) -> (end: LayoutEnd)
    ensures
        read_layout(layout@, 0, old(result).deep_view(), stack_view(stack)) == (LayoutOutcome {
            end,
            layouts: final(result).deep_view(),
        }),
{
    let chars = chars_of(layout);
    read(chars.as_slice(), result, stack)
}

/// Reads a layout, inside the divided cell `stack` or, where there is none, at the outermost
/// level, and says how many characters were read, which is as many bytes; 0 where the text ended
/// before the cell did, or at the outermost level after divided cells.
/// The layout steps come out in `result`, the outermost first.
pub fn parse_layout(
    layout: &str,
    result: &mut Vec<TmuxLayout>,
    stack: Option<Vec<PaneItem>>,
) -> (len: Result<usize, LayoutError>)
    requires
        !(read_layout(layout@, 0, old(result).deep_view(), stack_view(stack)).end is Fault),
    ensures
        final(result).deep_view() == read_layout(
            layout@,
            0,
            old(result).deep_view(),
            stack_view(stack),
        ).layouts,
        match read_layout(layout@, 0, old(result).deep_view(), stack_view(stack)).end {
            LayoutEnd::Done(n) => len == Ok::<usize, LayoutError>(n),
            _ => len == Err::<usize, LayoutError>(LayoutError::NotRight),
        },
{
    match try_parse_layout(layout, result, stack) {
        LayoutEnd::Done(n) => Ok(n),
        _ => Err(LayoutError::NotRight),
    }
}

} // verus!
