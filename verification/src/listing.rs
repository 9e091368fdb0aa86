//! The replies to the two listing commands: one line for a pane or a window, with the fields of it
//! in the order in which the command asks for them.

use crate::items::{placed_pane, LayoutView, PaneItem, TmuxLayout, WindowItem, WindowView};
use crate::layout::{read, read_layout, LayoutEnd, LayoutError, LayoutFault};
use crate::text::{
    after_bytes, chars_of, number_value, parse_number, pieces, skip_bytes, split, NumberError,
};
use vstd::prelude::*;

verus! {

/// The fields of a line.
#[derive(Debug, Clone, Copy, PartialEq, Eq, Structural)]
pub enum Field {
    SessionId,
    WindowId,
    PaneId,
    PaneIndex,
    CursorX,
    CursorY,
    PaneWidth,
    PaneHeight,
    PaneLeft,
    PaneTop,
    PaneActive,
    WindowWidth,
    WindowHeight,
    WindowActive,
    WindowLayout,
}

impl Field {
    pub open spec fn words(self) -> Seq<char> {
        match self {
            Field::SessionId => "session_id"@,
            Field::WindowId => "window_id"@,
            Field::PaneId => "pane_id"@,
            Field::PaneIndex => "pane_index"@,
            Field::CursorX => "cursor_x"@,
            Field::CursorY => "cursor_y"@,
            Field::PaneWidth => "pane_width"@,
            Field::PaneHeight => "pane_height"@,
            Field::PaneLeft => "pane_left"@,
            Field::PaneTop => "pane_top"@,
            Field::PaneActive => "pane_active"@,
            Field::WindowWidth => "window_width"@,
            Field::WindowHeight => "window_height"@,
            Field::WindowActive => "window_active"@,
            Field::WindowLayout => "window_layout"@,
        }
    }

    /// How tmux calls the field.
    pub fn name(&self) -> (name: &'static str)
        ensures
            name@ == self.words(),
    {
        match self {
            Field::SessionId => "session_id",
            Field::WindowId => "window_id",
            Field::PaneId => "pane_id",
            Field::PaneIndex => "pane_index",
            Field::CursorX => "cursor_x",
            Field::CursorY => "cursor_y",
            Field::PaneWidth => "pane_width",
            Field::PaneHeight => "pane_height",
            Field::PaneLeft => "pane_left",
            Field::PaneTop => "pane_top",
            Field::PaneActive => "pane_active",
            Field::WindowWidth => "window_width",
            Field::WindowHeight => "window_height",
            Field::WindowActive => "window_active",
            Field::WindowLayout => "window_layout",
        }
    }
}

/// Why a reply is turned down.
#[derive(Debug, Clone, Copy, PartialEq, Eq, Structural)]
pub enum ListError {
    /// A line ends before this field.
    Missing(Field),
    /// A field is not the number that it should be.
    Number(NumberError),
    /// The layout of a window is turned down.
    Layout(LayoutError),
}

impl ListError {
    pub open spec fn words(self) -> Seq<char> {
        match self {
            ListError::Missing(field) => "missing "@ + field.words(),
            ListError::Number(NumberError::Empty) => "cannot parse integer from empty string"@,
            ListError::Number(NumberError::InvalidDigit) => "invalid digit found in string"@,
            ListError::Number(NumberError::PosOverflow) =>
                "number too large to fit in target type"@,
            ListError::Layout(error) => error.words(),
        }
    }

    /// The error in words.
    pub fn message(&self) -> (words: String)
        ensures
            words@ == self.words(),
    {
        match self {
            ListError::Missing(field) => "missing ".to_owned().concat(field.name()),
            ListError::Number(NumberError::Empty) =>
                "cannot parse integer from empty string".to_owned(),
            ListError::Number(NumberError::InvalidDigit) =>
                "invalid digit found in string".to_owned(),
            ListError::Number(NumberError::PosOverflow) =>
                "number too large to fit in target type".to_owned(),
            ListError::Layout(error) => error.message(),
        }
    }
}

/// What makes a reply unreadable.
#[derive(Debug, Clone, Copy, PartialEq, Eq, Structural)]
pub enum ListFault {
    /// The number of a session, window or pane does not start with a mark of one byte.
    NoMark,
    /// The layout of a window does not start with a checksum and a comma, in five bytes.
    NoChecksum,
    /// The layout of a window cannot be read.
    Layout(LayoutFault),
}

/// Why a reply has no items.
#[derive(Debug, Clone, Copy, PartialEq, Eq, Structural)]
pub enum ListTrouble {
    Rejected(ListError),
    Fault(ListFault),
}

// ---------------------------------------------------------------------------
// Fields
// ---------------------------------------------------------------------------

/// The trouble with a field that is not there.
pub open spec fn missing(fields: Seq<Seq<char>>, i: int, field: Field) -> Option<ListTrouble> {
    if i < fields.len() {
        None
    } else {
        Some(ListTrouble::Rejected(ListError::Missing(field)))
    }
}

/// The trouble with a text that should be a number of at most `max`.
pub open spec fn no_number(s: Seq<char>, max: nat) -> Option<ListTrouble> {
    match number_value(s, max) {
        Ok(_) => None,
        Err(e) => Some(ListTrouble::Rejected(ListError::Number(e))),
    }
}

/// The trouble with a field that should be there and be a number of at most `max`.
pub open spec fn bad_number(
    fields: Seq<Seq<char>>,
    i: int,
    field: Field,
    max: nat,
) -> Option<ListTrouble> {
    if i < fields.len() {
        no_number(fields[i], max)
    } else {
        missing(fields, i, field)
    }
}

/// The trouble with a field that should be a mark and a number.
pub open spec fn bad_id(fields: Seq<Seq<char>>, i: int) -> Option<ListTrouble> {
    match after_bytes(fields[i], 1) {
        None => Some(ListTrouble::Fault(ListFault::NoMark)),
        Some(digits) => no_number(digits, u64::MAX as nat),
    }
}

/// The number that a field stands for.
pub open spec fn number_in_field(fields: Seq<Seq<char>>, i: int) -> u64 {
    number_value(fields[i], u64::MAX as nat)->Ok_0 as u64
}

/// The number that a field stands for after its mark.
pub open spec fn id_in_field(fields: Seq<Seq<char>>, i: int) -> u64 {
    number_value(after_bytes(fields[i], 1)->0, u64::MAX as nat)->Ok_0 as u64
}

/// Whether a field is the number 1.
pub open spec fn is_one(fields: Seq<Seq<char>>, i: int) -> bool {
    number_value(fields[i], usize::MAX as nat) == Ok::<nat, NumberError>(1)
}

/// The parts of a line, as a reader of fields sees them.
pub open spec fn views(fields: Seq<&[char]>) -> Seq<Seq<char>> {
    fields.map_values(|f: &[char]| f@)
}

fn fields_of<'a>(line: &'a [char]) -> (fields: Vec<&'a [char]>)
    ensures
        views(fields@) == pieces(line@, ' '),
{
    let fields = split(line, ' ');
    assert(views(fields@) =~= pieces(line@, ' '));
    fields
}

fn number(s: &[char], max: u64) -> (value: Result<u64, ListTrouble>)
    ensures
        match no_number(s@, max as nat) {
            Some(trouble) => value == Err::<u64, ListTrouble>(trouble),
            None => value is Ok && number_value(s@, max as nat) == Ok::<nat, NumberError>(
                value->Ok_0 as nat,
            ),
        },
{
    match parse_number(s, max) {
        Ok(v) => Ok(v),
        Err(e) => Err(ListTrouble::Rejected(ListError::Number(e))),
    }
}

fn field_at<'a>(fields: &Vec<&'a [char]>, i: usize, field: Field) -> (found: Result<
    &'a [char],
    ListTrouble,
>)
    ensures
        match missing(views(fields@), i as int, field) {
            Some(trouble) => found is Err && found->Err_0 == trouble,
            None => found is Ok && found->Ok_0@ == views(fields@)[i as int],
        },
{
    if i < fields.len() {
        Ok(fields[i])
    } else {
        Err(ListTrouble::Rejected(ListError::Missing(field)))
    }
}

fn number_field(fields: &Vec<&[char]>, i: usize, field: Field, max: u64) -> (value: Result<
    u64,
    ListTrouble,
>)
    ensures
        match bad_number(views(fields@), i as int, field, max as nat) {
            Some(trouble) => value == Err::<u64, ListTrouble>(trouble),
            None => value is Ok && number_value(views(fields@)[i as int], max as nat) == Ok::<
                nat,
                NumberError,
            >(value->Ok_0 as nat),
        },
{
    match field_at(fields, i, field) {
        Ok(s) => number(s, max),
        Err(trouble) => Err(trouble),
    }
}

fn id_field(fields: &Vec<&[char]>, i: usize) -> (value: Result<u64, ListTrouble>)
    requires
        i < fields@.len(),
    ensures
        match bad_id(views(fields@), i as int) {
            Some(trouble) => value == Err::<u64, ListTrouble>(trouble),
            None => value == Ok::<u64, ListTrouble>(id_in_field(views(fields@), i as int)),
        },
{
    assert(views(fields@)[i as int] == fields@[i as int]@);
    match skip_bytes(fields[i], 1) {
        None => Err(ListTrouble::Fault(ListFault::NoMark)),
        Some(digits) => number(digits, u64::MAX),
    }
}

// ---------------------------------------------------------------------------
// Panes
// ---------------------------------------------------------------------------

/// The first trouble with the fields of a pane, in the order in which they are looked at: that
/// they are there and the numbers among them are numbers, from left to right, and then the three
/// fields with a mark.
pub open spec fn pane_trouble(f: Seq<Seq<char>>) -> Option<ListTrouble> {
    let max = u64::MAX as nat;
    if let Some(t) = missing(f, 0, Field::SessionId) {
        Some(t)
    } else if let Some(t) = missing(f, 1, Field::WindowId) {
        Some(t)
    } else if let Some(t) = missing(f, 2, Field::PaneId) {
        Some(t)
    } else if let Some(t) = bad_number(f, 3, Field::PaneIndex, max) {
        Some(t)
    } else if let Some(t) = bad_number(f, 4, Field::CursorX, max) {
        Some(t)
    } else if let Some(t) = bad_number(f, 5, Field::CursorY, max) {
        Some(t)
    } else if let Some(t) = bad_number(f, 6, Field::PaneWidth, max) {
        Some(t)
    } else if let Some(t) = bad_number(f, 7, Field::PaneHeight, max) {
        Some(t)
    } else if let Some(t) = bad_number(f, 8, Field::PaneLeft, max) {
        Some(t)
    } else if let Some(t) = bad_number(f, 9, Field::PaneTop, max) {
        Some(t)
    } else if let Some(t) = bad_number(f, 10, Field::PaneActive, usize::MAX as nat) {
        Some(t)
    } else if let Some(t) = bad_id(f, 0) {
        Some(t)
    } else if let Some(t) = bad_id(f, 1) {
        Some(t)
    } else {
        bad_id(f, 2)
    }
}

/// The pane that a line describes.
#[verifier::opaque]
pub open spec fn pane_of_line(line: Seq<char>) -> Result<PaneItem, ListTrouble> {
    let f = pieces(line, ' ');
    match pane_trouble(f) {
        Some(t) => Err(t),
        None => Ok(
            PaneItem {
                session_id: id_in_field(f, 0),
                window_id: id_in_field(f, 1),
                pane_id: id_in_field(f, 2),
                _pane_index: number_in_field(f, 3),
                cursor_x: number_in_field(f, 4),
                cursor_y: number_in_field(f, 5),
                pane_width: number_in_field(f, 6),
                pane_height: number_in_field(f, 7),
                pane_left: number_in_field(f, 8),
                pane_top: number_in_field(f, 9),
                pane_active: is_one(f, 10),
            },
        ),
    }
}

/// The panes that lines describe, empty lines left out; the first line with a trouble decides.
pub open spec fn panes_of_lines(lines: Seq<Seq<char>>) -> Result<Seq<PaneItem>, ListTrouble>
    decreases lines.len(),
{
    if lines.len() == 0 {
        Ok(seq![])
    } else {
        match panes_of_lines(lines.drop_last()) {
            Err(t) => Err(t),
            Ok(items) => if lines.last().len() == 0 {
                Ok(items)
            } else {
                match pane_of_line(lines.last()) {
                    Err(t) => Err(t),
                    Ok(item) => Ok(items.push(item)),
                }
            },
        }
    }
}

/// What the reply to the command that lists the panes says.
pub open spec fn pane_list(output: Seq<char>) -> Result<Seq<PaneItem>, ListTrouble> {
    panes_of_lines(pieces(output, '\n'))
}

fn read_pane_line(line: &[char]) -> (item: Result<PaneItem, ListTrouble>)
    ensures
        item == pane_of_line(line@),
{
    proof {
        reveal(pane_of_line);
    }
    let fields = fields_of(line);
    field_at(&fields, 0, Field::SessionId)?;
    field_at(&fields, 1, Field::WindowId)?;
    field_at(&fields, 2, Field::PaneId)?;
    let _pane_index = number_field(&fields, 3, Field::PaneIndex, u64::MAX)?;
    let cursor_x = number_field(&fields, 4, Field::CursorX, u64::MAX)?;
    let cursor_y = number_field(&fields, 5, Field::CursorY, u64::MAX)?;
    let pane_width = number_field(&fields, 6, Field::PaneWidth, u64::MAX)?;
    let pane_height = number_field(&fields, 7, Field::PaneHeight, u64::MAX)?;
    let pane_left = number_field(&fields, 8, Field::PaneLeft, u64::MAX)?;
    let pane_top = number_field(&fields, 9, Field::PaneTop, u64::MAX)?;
    let pane_active = number_field(&fields, 10, Field::PaneActive, usize::MAX as u64)?;
    let session_id = id_field(&fields, 0)?;
    let window_id = id_field(&fields, 1)?;
    let pane_id = id_field(&fields, 2)?;
    Ok(
        PaneItem {
            session_id,
            window_id,
            pane_id,
            _pane_index,
            cursor_x,
            cursor_y,
            pane_width,
            pane_height,
            pane_left,
            pane_top,
            pane_active: pane_active == 1,
        },
    )
}

/// A trouble in the first lines is the trouble of them all.
proof fn lemma_panes_trouble(lines: Seq<Seq<char>>, k: int)
    requires
        0 <= k <= lines.len(),
        panes_of_lines(lines.take(k)) is Err,
    ensures
        panes_of_lines(lines) == panes_of_lines(lines.take(k)),
    decreases lines.len(),
{
    if k < lines.len() {
        assert(lines.drop_last().take(k) == lines.take(k));
        lemma_panes_trouble(lines.drop_last(), k);
    } else {
        assert(lines.take(k) == lines);
    }
}

/// Reads the reply to the command that lists the panes, whatever it is.
pub fn read_pane_list(output: &str) -> (items: Result<Vec<PaneItem>, ListTrouble>)
    ensures
        match pane_list(output@) {
            Ok(panes) => items is Ok && items->Ok_0@ == panes,
            Err(trouble) => items is Err && items->Err_0 == trouble,
        },
{
    let chars = chars_of(output);
    let lines = split(chars.as_slice(), '\n');
    let ghost all = pieces(output@, '\n');
    let mut items: Vec<PaneItem> = Vec::new();
    let mut i: usize = 0;
    while i < lines.len()
        invariant
            i <= lines@.len(),
            all == pieces(output@, '\n'),
            lines@.len() == all.len(),
            forall|j: int| 0 <= j < lines@.len() ==> #[trigger] lines@[j]@ == all[j],
            panes_of_lines(all.take(i as int)) == Ok::<Seq<PaneItem>, ListTrouble>(items@),
        decreases lines.len() - i,
    {
        let line = lines[i];
        proof {
            assert(line@ == all[i as int]);
            assert(all.take(i + 1).drop_last() == all.take(i as int));
            if panes_of_lines(all.take(i + 1)) is Err {
                lemma_panes_trouble(all, i + 1);
            }
        }
        if line.len() != 0 {
            items.push(read_pane_line(line)?);
        }
        i = i + 1;
    }
    assert(all.take(all.len() as int) == all);
    Ok(items)
}

// ---------------------------------------------------------------------------
// Windows
// ---------------------------------------------------------------------------

/// The trouble with the layout of a window.
pub open spec fn layout_trouble(s: Seq<char>) -> Option<ListTrouble> {
    match after_bytes(s, 5) {
        None => Some(ListTrouble::Fault(ListFault::NoChecksum)),
        Some(layout) => match read_layout(layout, 0, seq![], None).end {
            LayoutEnd::Done(_) => None,
            LayoutEnd::NotRight => Some(
                ListTrouble::Rejected(ListError::Layout(LayoutError::NotRight)),
            ),
            LayoutEnd::Fault(fault) => Some(ListTrouble::Fault(ListFault::Layout(fault))),
        },
    }
}

/// The first trouble with the fields of a window, in the order in which they are looked at: that
/// they are there and the numbers among them are numbers, from left to right, then the two fields
/// with a mark, then the layout.
pub open spec fn window_trouble(f: Seq<Seq<char>>) -> Option<ListTrouble> {
    let max = u64::MAX as nat;
    if let Some(t) = missing(f, 0, Field::SessionId) {
        Some(t)
    } else if let Some(t) = missing(f, 1, Field::WindowId) {
        Some(t)
    } else if let Some(t) = bad_number(f, 2, Field::WindowWidth, max) {
        Some(t)
    } else if let Some(t) = bad_number(f, 3, Field::WindowHeight, max) {
        Some(t)
    } else if let Some(t) = bad_number(f, 4, Field::WindowActive, usize::MAX as nat) {
        Some(t)
    } else if let Some(t) = missing(f, 5, Field::WindowLayout) {
        Some(t)
    } else if let Some(t) = bad_id(f, 0) {
        Some(t)
    } else if let Some(t) = bad_id(f, 1) {
        Some(t)
    } else {
        layout_trouble(f[5])
    }
}

/// Layout steps with every pane placed in the given session and window.
pub open spec fn placed_layouts(
    layouts: Seq<LayoutView>,
    session_id: u64,
    window_id: u64,
) -> Seq<LayoutView> {
    layouts.map_values(|l: LayoutView| l.placed(session_id, window_id))
}

/// The window that a line describes. The panes of its layout are those of that window.
#[verifier::opaque]
pub open spec fn window_of_line(line: Seq<char>) -> Result<WindowView, ListTrouble> {
    let f = pieces(line, ' ');
    match window_trouble(f) {
        Some(t) => Err(t),
        None => Ok(
            WindowView {
                session_id: id_in_field(f, 0),
                window_id: id_in_field(f, 1),
                window_width: number_in_field(f, 2),
                window_height: number_in_field(f, 3),
                window_active: is_one(f, 4),
                layout: placed_layouts(
                    read_layout(after_bytes(f[5], 5)->0, 0, seq![], None).layouts,
                    id_in_field(f, 0),
                    id_in_field(f, 1),
                ),
            },
        ),
    }
}

/// The windows that lines describe, empty lines left out; the first line with a trouble decides.
pub open spec fn windows_of_lines(lines: Seq<Seq<char>>) -> Result<Seq<WindowView>, ListTrouble>
    decreases lines.len(),
{
    if lines.len() == 0 {
        Ok(seq![])
    } else {
        match windows_of_lines(lines.drop_last()) {
            Err(t) => Err(t),
            Ok(items) => if lines.last().len() == 0 {
                Ok(items)
            } else {
                match window_of_line(lines.last()) {
                    Err(t) => Err(t),
                    Ok(item) => Ok(items.push(item)),
                }
            },
        }
    }
}

/// What the reply to the command that lists the windows says.
pub open spec fn window_list(output: Seq<char>) -> Result<Seq<WindowView>, ListTrouble> {
    windows_of_lines(pieces(output, '\n'))
}

fn place_panes(panes: &mut Vec<PaneItem>, session_id: u64, window_id: u64)
    ensures
        final(panes)@ == old(panes)@.map_values(
            |p: PaneItem| placed_pane(p, session_id, window_id),
        ),
{
    let ghost before = panes@;
    let mut i: usize = 0;
    while i < panes.len()
        invariant
            i <= panes@.len(),
            panes@.len() == before.len(),
            forall|j: int|
                0 <= j < i ==> #[trigger] panes@[j] == placed_pane(
                    before[j],
                    session_id,
                    window_id,
                ),
            forall|j: int| i <= j < before.len() ==> #[trigger] panes@[j] == before[j],
        decreases panes.len() - i,
    {
        let mut pane = panes[i];
        pane.session_id = session_id;
        pane.window_id = window_id;
        panes.set(i, pane);
        i = i + 1;
    }
    assert(panes@ =~= before.map_values(|p: PaneItem| placed_pane(p, session_id, window_id)));
}

fn place_layout(layout: &mut TmuxLayout, session_id: u64, window_id: u64)
    ensures
        final(layout).deep_view() == old(layout).deep_view().placed(session_id, window_id),
{
    match layout {
        TmuxLayout::SinglePane(pane) => {
            pane.session_id = session_id;
            pane.window_id = window_id;
        },
        TmuxLayout::SplitHorizontal(panes) => {
            place_panes(panes, session_id, window_id);
        },
        TmuxLayout::SplitVertical(panes) => {
            place_panes(panes, session_id, window_id);
        },
    }
}

fn place_layouts(layouts: &mut Vec<TmuxLayout>, session_id: u64, window_id: u64)
    ensures
        final(layouts).deep_view() == placed_layouts(
            old(layouts).deep_view(),
            session_id,
            window_id,
        ),
{
    let ghost before = layouts.deep_view();
    let mut i: usize = 0;
    while i < layouts.len()
        invariant
            i <= layouts@.len(),
            layouts@.len() == before.len(),
            forall|j: int|
                0 <= j < i ==> (#[trigger] layouts@[j]).deep_view() == before[j].placed(
                    session_id,
                    window_id,
                ),
            forall|j: int|
                i <= j < before.len() ==> (#[trigger] layouts@[j]).deep_view() == before[j],
        decreases layouts.len() - i,
    {
        place_layout(&mut layouts[i], session_id, window_id);
        i = i + 1;
    }
    assert(layouts.deep_view() =~= placed_layouts(before, session_id, window_id));
}

fn read_window_line(line: &[char]) -> (item: Result<WindowItem, ListTrouble>)
    ensures
        match window_of_line(line@) {
            Ok(window) => item is Ok && item->Ok_0.deep_view() == window,
            Err(trouble) => item is Err && item->Err_0 == trouble,
        },
{
    proof {
        reveal(window_of_line);
    }
    let fields = fields_of(line);
    field_at(&fields, 0, Field::SessionId)?;
    field_at(&fields, 1, Field::WindowId)?;
    let window_width = number_field(&fields, 2, Field::WindowWidth, u64::MAX)?;
    let window_height = number_field(&fields, 3, Field::WindowHeight, u64::MAX)?;
    let window_active = number_field(&fields, 4, Field::WindowActive, usize::MAX as u64)?;
    let window_layout = field_at(&fields, 5, Field::WindowLayout)?;
    let session_id = id_field(&fields, 0)?;
    let window_id = id_field(&fields, 1)?;
    let text = match skip_bytes(window_layout, 5) {
        Some(text) => text,
        None => return Err(ListTrouble::Fault(ListFault::NoChecksum)),
    };
    let mut layout: Vec<TmuxLayout> = Vec::new();
    assert(layout.deep_view() =~= Seq::<LayoutView>::empty());
    match read(text, &mut layout, None) {
        LayoutEnd::Done(_) => {},
        LayoutEnd::NotRight => return Err(
            ListTrouble::Rejected(ListError::Layout(LayoutError::NotRight)),
        ),
        LayoutEnd::Fault(fault) => return Err(ListTrouble::Fault(ListFault::Layout(fault))),
    }
    place_layouts(&mut layout, session_id, window_id);
    Ok(
        WindowItem {
            session_id,
            window_id,
            window_width,
            window_height,
            window_active: window_active == 1,
            layout,
        },
    )
}

/// A trouble in the first lines is the trouble of them all.
proof fn lemma_windows_trouble(lines: Seq<Seq<char>>, k: int)
    requires
        0 <= k <= lines.len(),
        windows_of_lines(lines.take(k)) is Err,
    ensures
        windows_of_lines(lines) == windows_of_lines(lines.take(k)),
    decreases lines.len(),
{
    if k < lines.len() {
        assert(lines.drop_last().take(k) == lines.take(k));
        lemma_windows_trouble(lines.drop_last(), k);
    } else {
        assert(lines.take(k) == lines);
    }
}

/// Reads the reply to the command that lists the windows, whatever it is.
pub fn read_window_list(output: &str) -> (items: Result<Vec<WindowItem>, ListTrouble>)
    ensures
        match window_list(output@) {
            Ok(windows) => items is Ok && items->Ok_0.deep_view() == windows,
            Err(trouble) => items is Err && items->Err_0 == trouble,
        },
{
    let chars = chars_of(output);
    let lines = split(chars.as_slice(), '\n');
    let ghost all = pieces(output@, '\n');
    let mut items: Vec<WindowItem> = Vec::new();
    let mut i: usize = 0;
    assert(items.deep_view() =~= Seq::<WindowView>::empty());
    while i < lines.len()
        invariant
            i <= lines@.len(),
            all == pieces(output@, '\n'),
            lines@.len() == all.len(),
            forall|j: int| 0 <= j < lines@.len() ==> #[trigger] lines@[j]@ == all[j],
            windows_of_lines(all.take(i as int)) == Ok::<Seq<WindowView>, ListTrouble>(
                items.deep_view(),
            ),
        decreases lines.len() - i,
    {
        let line = lines[i];
        proof {
            assert(line@ == all[i as int]);
            assert(all.take(i + 1).drop_last() == all.take(i as int));
            if windows_of_lines(all.take(i + 1)) is Err {
                lemma_windows_trouble(all, i + 1);
            }
        }
        if line.len() != 0 {
            let ghost before = items.deep_view();
            let item = read_window_line(line)?;
            items.push(item);
            assert(items.deep_view() =~= before.push(item.deep_view()));
        }
        i = i + 1;
    }
    assert(all.take(all.len() as int) == all);
    Ok(items)
}

} // verus!
