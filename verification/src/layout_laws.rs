//! What a layout string says of each cell, and what the layout steps say of each pane.

use crate::items::{LayoutView, PaneItem};
use crate::layout::{
    cell_spans, digits_end, id_end, is_digit, lemma_cell_spans, lemma_read_within, number_at,
    number_before, number_end, opening, pane_at, pane_len, read_layout, CellSpans, LayoutEnd,
    LayoutFault, PaneAt,
};
use crate::layout_tree::{
    all_well_formed, cell_text, division, head, heads, last_id, law_layout_reads_back, steps,
    steps_inside, well_formed, window_steps, Cell, Place,
};
use crate::text::{decimal_value, is_ascii_digit, law_number_is_base_ten, NumberError};
use vstd::prelude::*;

verus! {

// ---------------------------------------------------------------------------
// One cell
// ---------------------------------------------------------------------------

/// Whether a text is a number: digits, at least one.
pub open spec fn all_digits(s: Seq<char>) -> bool {
    s.len() >= 1 && forall|i: int| 0 <= i < s.len() ==> is_ascii_digit(#[trigger] s[i])
}

/// Whether a number is worth no more than fits.
pub open spec fn fits(s: Seq<char>) -> bool {
    decimal_value(s) <= u64::MAX
}

/// Whether the number at a place of a text reads as what the digits are worth, if that fits.
spec fn is_worth(s: Seq<char>, from: int, end: int, d: Seq<char>) -> bool {
    if fits(d) {
        number_at(s, from, end) == Ok::<nat, NumberError>(decimal_value(d))
    } else {
        number_at(s, from, end) is Err
    }
}

/// A cell as it is written: with a comma before it or none, and a pane number behind it or none.
pub open spec fn cell_words(
    comma: bool,
    width: Seq<char>,
    height: Seq<char>,
    left: Seq<char>,
    top: Seq<char>,
    id: Option<Seq<char>>,
) -> Seq<char> {
    (if comma {
        seq![',']
    } else {
        seq![]
    }) + width + seq!['x'] + height + seq![','] + left + seq![','] + top + (match id {
        Some(id) => seq![','] + id,
        None => seq![],
    })
}

/// Whether what stands behind a cell does not belong to it.
pub open spec fn ends_cell(rest: Seq<char>, has_id: bool) -> bool {
    &&& rest.len() == 0 || !is_digit(rest[0])
    &&& !has_id && rest.len() >= 2 && rest[0] == ',' ==> !is_digit(rest[1])
}

/// Whether a number stands at a place of a text, with no further digit behind it.
spec fn number_stands(s: Seq<char>, from: int, d: Seq<char>) -> bool {
    &&& all_digits(d)
    &&& 0 <= from
    &&& from + d.len() <= s.len()
    &&& s.subrange(from, from + d.len()) == d
    &&& from + d.len() == s.len() || !is_digit(s[from + d.len()])
}

proof fn lemma_run_of_digits(s: Seq<char>, from: int, d: Seq<char>)
    requires
        number_stands(s, from, d),
    ensures
        digits_end(s, from) == from + d.len(),
        is_worth(s, from, from + d.len(), d),
        is_digit(s[from]),
        s[from] != ',',
{
    let end = from + d.len();
    assert forall|i: int| from <= i < end implies is_digit(#[trigger] s[i]) by {
        assert(s[i] == s.subrange(from, end)[i - from]);
        assert(is_ascii_digit(d[i - from]));
    }
    assert(s[from] == s.subrange(from, end)[0]);
    assert(is_ascii_digit(d[0]));
    lemma_digits_stop(s, from, end);
    law_number_is_base_ten(d, u64::MAX as nat);
}

proof fn lemma_spans(
    s: Seq<char>,
    start: int,
    width: Seq<char>,
    height: Seq<char>,
    left: Seq<char>,
    top: Seq<char>,
)
    requires
        start == 0 || start == 1 && s[0] == ',',
        ({
            let w = start + width.len();
            let h = w + 1 + height.len();
            let l = h + 1 + left.len();
            &&& number_stands(s, start, width)
            &&& number_stands(s, w + 1, height)
            &&& number_stands(s, h + 1, left)
            &&& number_stands(s, l + 1, top)
            &&& s[w] == 'x'
            &&& s[h] == ','
            &&& s[l] == ','
        }),
    ensures
        ({
            let w = start + width.len();
            let h = w + 1 + height.len();
            let l = h + 1 + left.len();
            let t = l + 1 + top.len();
            &&& cell_spans(s) == Some(CellSpans { start, width: w, height: h, left: l, top: t })
            &&& is_worth(s, start, w, width)
            &&& is_worth(s, w + 1, h, height)
            &&& is_worth(s, h + 1, l, left)
            &&& is_worth(s, l + 1, t, top)
        }),
{
    reveal(cell_spans);
    let w = start + width.len();
    let h = w + 1 + height.len();
    let l = h + 1 + left.len();
    lemma_run_of_digits(s, start, width);
    lemma_run_of_digits(s, w + 1, height);
    lemma_run_of_digits(s, h + 1, left);
    lemma_run_of_digits(s, l + 1, top);
}

/// What stands where in the words of a cell.
proof fn lemma_words_stand(
    comma: bool,
    width: Seq<char>,
    height: Seq<char>,
    left: Seq<char>,
    top: Seq<char>,
    tail: Seq<char>,
)
    requires
        all_digits(width),
        all_digits(height),
        all_digits(left),
        all_digits(top),
        tail.len() == 0 || !is_digit(tail[0]),
    ensures
        ({
            let lead: Seq<char> = if comma {
                seq![',']
            } else {
                seq![]
            };
            let s = lead + width + seq!['x'] + height + seq![','] + left + seq![','] + top + tail;
            let start = lead.len() as int;
            let w = start + width.len();
            let h = w + 1 + height.len();
            let l = h + 1 + left.len();
            let t = l + 1 + top.len();
            &&& comma ==> s[0] == ','
            &&& number_stands(s, start, width)
            &&& number_stands(s, w + 1, height)
            &&& number_stands(s, h + 1, left)
            &&& number_stands(s, l + 1, top)
            &&& s[w] == 'x'
            &&& s[h] == ','
            &&& s[l] == ','
            &&& s.len() == t + tail.len()
            &&& s.skip(t) == tail
        }),
{
    let lead: Seq<char> = if comma {
        seq![',']
    } else {
        seq![]
    };
    let s = lead + width + seq!['x'] + height + seq![','] + left + seq![','] + top + tail;
    let start = lead.len() as int;
    let w = start + width.len();
    let h = w + 1 + height.len();
    let l = h + 1 + left.len();
    let t = l + 1 + top.len();
    assert(s.subrange(start, w) =~= width);
    assert(s.subrange(w + 1, h) =~= height);
    assert(s.subrange(h + 1, l) =~= left);
    assert(s.subrange(l + 1, t) =~= top);
    assert(s.skip(t) =~= tail);
    if tail.len() > 0 {
        assert(s[t] == s.skip(t)[0]);
    }
    assert(!is_digit('x') && !is_digit(','));
}

proof fn lemma_digits_stop(s: Seq<char>, from: int, end: int)
    requires
        0 <= from <= end <= s.len(),
        forall|i: int| from <= i < end ==> is_digit(#[trigger] s[i]),
        end == s.len() || !is_digit(s[end]),
    ensures
        digits_end(s, from) == end,
    decreases end - from,
{
    if from < end {
        lemma_digits_stop(s, from + 1, end);
    }
}

/// A cell reads as what it says: the numbers in it are its width, its height, its left and its top
/// edge, in this order, and the number of its pane, which is 0 where none stands there. Nothing else
/// is known of the pane. It cannot be read where one of the numbers does not fit. With a number of a
/// pane it is a pane of that length; without one, and with an opening mark behind it, it is the
/// beginning of a divided cell.
pub proof fn law_cell_reads_as_it_says(
    comma: bool,
    width: Seq<char>,
    height: Seq<char>,
    left: Seq<char>,
    top: Seq<char>,
    id: Option<Seq<char>>,
    rest: Seq<char>,
)
    requires
        all_digits(width),
        all_digits(height),
        all_digits(left),
        all_digits(top),
        id matches Some(digits) ==> all_digits(digits),
        ends_cell(rest, id is Some),
    ensures
        ({
            let words = cell_words(comma, width, height, left, top, id);
            let s = words + rest;
            let readable = fits(width) && fits(height) && fits(left) && fits(top) && (id matches Some(
                digits,
            ) ==> fits(digits));
            &&& !readable ==> pane_at(s) is BadNumber
            &&& readable ==> (pane_at(s) matches PaneAt::Pane(p) && {
                &&& p.pane_width == decimal_value(width)
                &&& p.pane_height == decimal_value(height)
                &&& p.pane_left == decimal_value(left)
                &&& p.pane_top == decimal_value(top)
                &&& p.pane_id == (match id {
                    Some(digits) => decimal_value(digits),
                    None => 0,
                })
                &&& p.session_id == 0 && p.window_id == 0 && p._pane_index == 0
                &&& p.cursor_x == 0 && p.cursor_y == 0 && !p.pane_active
            })
            &&& pane_len(s) == (if id is Some {
                Some(words.len() as int)
            } else {
                None
            })
            &&& opening(s) == (if id is None && rest.len() > 0 && (rest[0] == '{' || rest[0] == '['
                || rest[0] == '|') {
                Some(words.len() as int + 1)
            } else {
                None
            })
        }),
{
    let words = cell_words(comma, width, height, left, top, id);
    let s = words + rest;
    let c = lemma_words_found(comma, width, height, left, top, id, rest);
    lemma_behind_the_top(s, c.top, id, rest);
    assert(words.len() == c.top + (match id {
        Some(digits) => 1 + digits.len(),
        None => 0,
    }));
}

proof fn lemma_words_found(
    comma: bool,
    width: Seq<char>,
    height: Seq<char>,
    left: Seq<char>,
    top: Seq<char>,
    id: Option<Seq<char>>,
    rest: Seq<char>,
) -> (c: CellSpans)
    requires
        all_digits(width),
        all_digits(height),
        all_digits(left),
        all_digits(top),
        ends_cell(rest, id is Some),
    ensures
        ({
            let s = cell_words(comma, width, height, left, top, id) + rest;
            let start: int = if comma {
                1
            } else {
                0
            };
            &&& cell_spans(s) == Some(c)
            &&& is_worth(s, c.start, c.width, width)
            &&& is_worth(s, c.width + 1, c.height, height)
            &&& is_worth(s, c.height + 1, c.left, left)
            &&& is_worth(s, c.left + 1, c.top, top)
            &&& c.top == start + width.len() + height.len() + left.len() + top.len() + 3
            &&& 0 <= c.top <= s.len()
            &&& s.skip(c.top) == (match id {
                Some(digits) => seq![','] + digits,
                None => seq![],
            }) + rest
        }),
{
    let s = cell_words(comma, width, height, left, top, id) + rest;
    let lead: Seq<char> = if comma {
        seq![',']
    } else {
        seq![]
    };
    let number: Seq<char> = match id {
        Some(digits) => seq![','] + digits,
        None => seq![],
    };
    let start = lead.len() as int;
    assert((number + rest).len() == 0 || !is_digit((number + rest)[0])) by {
        if id is None {
            assert(number + rest =~= rest);
        }
        assert(!is_digit(','));
    }
    lemma_words_stand(comma, width, height, left, top, number + rest);
    lemma_concat(
        lead + width + seq!['x'] + height + seq![','] + left + seq![','] + top,
        number,
        rest,
    );
    lemma_spans(s, start, width, height, left, top);
    cell_spans(s)->0
}

proof fn lemma_concat(a: Seq<char>, b: Seq<char>, c: Seq<char>)
    ensures
        a + b + c == a + (b + c),
{
    assert(a + b + c =~= a + (b + c));
}

proof fn lemma_behind_the_top(s: Seq<char>, t: int, id: Option<Seq<char>>, rest: Seq<char>)
    requires
        0 <= t <= s.len(),
        s.skip(t) == (match id {
            Some(digits) => seq![','] + digits,
            None => seq![],
        }) + rest,
        id matches Some(digits) ==> all_digits(digits),
        ends_cell(rest, id is Some),
        cell_spans(s) is Some,
        cell_spans(s)->0.top == t,
    ensures
        match id {
            Some(digits) => {
                &&& id_end(s, cell_spans(s)->0) == Some(t + 1 + digits.len())
                &&& is_worth(s, t + 1, t + 1 + digits.len(), digits)
                &&& s[t] == ','
            },
            None => {
                &&& id_end(s, cell_spans(s)->0) is None
                &&& s.len() - t == rest.len()
                &&& rest.len() > 0 ==> s[t] == rest[0]
            },
        },
{
    let tail = s.skip(t);
    if t < s.len() {
        assert(s[t] == tail[0]);
    }
    match id {
        Some(digits) => {
            let end = t + 1 + digits.len();
            let number = seq![','] + digits;
            assert(tail == number + rest);
            assert(s.len() - t == number.len() + rest.len());
            assert forall|i: int| 0 <= i < digits.len() implies s[t + 1 + i] == digits[i] by {
                assert(s[t + 1 + i] == tail[1 + i]);
                assert(tail[1 + i] == number[1 + i]);
            }
            assert(s.subrange(t + 1, end) =~= digits);
            if end < s.len() {
                assert(s[end] == tail[end - t]);
                assert(s[end] == rest[0]);
            }
            lemma_run_of_digits(s, t + 1, digits);
        },
        None => {
            assert(tail =~= rest);
            if rest.len() > 1 {
                assert(s[t + 1] == tail[1]);
            }
        },
    }
}

// ---------------------------------------------------------------------------
// What is no cell
// ---------------------------------------------------------------------------

/// The first `k` parts of a cell as it is written: numbers and the marks between them in turn.
pub open spec fn cut_words(
    lead: Seq<char>,
    width: Seq<char>,
    height: Seq<char>,
    left: Seq<char>,
    k: int,
) -> Seq<char> {
    if k <= 0 {
        lead
    } else if k == 1 {
        lead + width
    } else if k == 2 {
        lead + width + seq!['x']
    } else if k == 3 {
        lead + width + seq!['x'] + height
    } else if k == 4 {
        lead + width + seq!['x'] + height + seq![',']
    } else if k == 5 {
        lead + width + seq!['x'] + height + seq![','] + left
    } else {
        lead + width + seq!['x'] + height + seq![','] + left + seq![',']
    }
}

/// Whether a text does not go on with the part of a cell that must stand there: a number where `k`
/// is even, else a mark.
pub open spec fn breaks_off(rest: Seq<char>, k: int) -> bool {
    rest.len() == 0 || !is_digit(rest[0]) && (k == 1 ==> rest[0] != 'x') && (k == 3 || k == 5
        ==> rest[0] != ',')
}

proof fn lemma_no_number(s: Seq<char>, from: int)
    requires
        0 <= from <= s.len(),
        from == s.len() || !is_digit(s[from]),
    ensures
        number_before(s, from, 'x') is None,
        number_before(s, from, ',') is None,
        number_end(s, from) is None,
{
}

proof fn lemma_number_stands(a: Seq<char>, d: Seq<char>, c: Seq<char>)
    requires
        all_digits(d),
        c.len() == 0 || !is_digit(c[0]),
    ensures
        number_stands(a + d + c, a.len() as int, d),
        c.len() > 0 ==> (a + d + c)[(a.len() + d.len()) as int] == c[0],
        (a + d + c).len() == a.len() + d.len() + c.len(),
{
    let s = a + d + c;
    assert(s.subrange(a.len() as int, (a.len() + d.len()) as int) =~= d);
}

/// The place behind a number and the mark that must stand there.
proof fn lemma_number_passed(a: Seq<char>, d: Seq<char>, c: Seq<char>, mark: char)
    requires
        all_digits(d),
        c.len() == 0 || !is_digit(c[0]),
    ensures
        number_before(a + d + c, a.len() as int, mark) == (if c.len() > 0 && c[0] == mark {
            Some((a.len() + d.len()) as int)
        } else {
            None
        }),
{
    lemma_number_stands(a, d, c);
    lemma_run_of_digits(a + d + c, a.len() as int, d);
}

/// A text that starts like a cell and breaks off before its last number is no pane.
pub proof fn law_broken_cell_is_no_pane(
    comma: bool,
    width: Seq<char>,
    height: Seq<char>,
    left: Seq<char>,
    k: int,
    rest: Seq<char>,
)
    requires
        all_digits(width),
        all_digits(height),
        all_digits(left),
        0 <= k <= 6,
        breaks_off(rest, k),
        k == 0 && !comma && rest.len() > 0 ==> rest[0] != ',',
    ensures
        pane_at(
            cut_words(
                if comma {
                    seq![',']
                } else {
                    seq![]
                },
                width,
                height,
                left,
                k,
            ) + rest,
        ) is Absent,
{
    reveal(cell_spans);
    assert(!is_digit(',') && !is_digit('x'));
    let lead: Seq<char> = if comma {
        seq![',']
    } else {
        seq![]
    };
    let s = cut_words(lead, width, height, left, k) + rest;
    assert(is_ascii_digit(width[0]));
    if k == 0 {
        assert(s.len() > lead.len() ==> s[lead.len() as int] == rest[0]);
        lemma_no_number(s, lead.len() as int);
    } else {
        lemma_broken_behind_the_width(lead, width, height, left, k, rest);
        assert(s[0] == (if comma {
            ','
        } else {
            width[0]
        }));
    }
}

proof fn lemma_broken_behind_the_width(
    lead: Seq<char>,
    width: Seq<char>,
    height: Seq<char>,
    left: Seq<char>,
    k: int,
    rest: Seq<char>,
)
    requires
        all_digits(width),
        all_digits(height),
        all_digits(left),
        1 <= k <= 6,
        breaks_off(rest, k),
    ensures
        ({
            let s = cut_words(lead, width, height, left, k) + rest;
            let w = (lead.len() + width.len()) as int;
            let h = w + 1 + height.len();
            let l = h + 1 + left.len();
            &&& number_before(s, lead.len() as int, 'x') == (if k == 1 {
                None
            } else {
                Some(w)
            })
            &&& k >= 2 ==> number_before(s, w + 1, ',') == (if k <= 3 {
                None
            } else {
                Some(h)
            })
            &&& k >= 4 ==> number_before(s, h + 1, ',') == (if k <= 5 {
                None
            } else {
                Some(l)
            })
            &&& k >= 6 ==> number_end(s, l + 1) is None
        }),
{
    let s = cut_words(lead, width, height, left, k) + rest;
    assert(!is_digit(',') && !is_digit('x'));
    let x = seq!['x'];
    let c = seq![','];
    let w = (lead.len() + width.len()) as int;
    let h = w + 1 + height.len();
    let l = h + 1 + left.len();
    if k == 1 {
        lemma_number_passed(lead, width, rest, 'x');
    } else if k == 2 {
        assert(s =~= lead + width + (x + rest));
        lemma_number_passed(lead, width, x + rest, 'x');
        assert(s.len() > w + 1 ==> s[w + 1] == rest[0]);
        lemma_no_number(s, w + 1);
    } else if k == 3 {
        assert(s =~= lead + width + (x + height + rest));
        lemma_number_passed(lead, width, x + height + rest, 'x');
        assert(s =~= (lead + width + x) + height + rest);
        lemma_number_passed(lead + width + x, height, rest, ',');
    } else if k == 4 {
        assert(s =~= lead + width + (x + height + c + rest));
        lemma_number_passed(lead, width, x + height + c + rest, 'x');
        assert(s =~= (lead + width + x) + height + (c + rest));
        lemma_number_passed(lead + width + x, height, c + rest, ',');
        assert(s.len() > h + 1 ==> s[h + 1] == rest[0]);
        lemma_no_number(s, h + 1);
    } else {
        lemma_broken_behind_the_height(lead, width, height, left, k, rest);
    }
}

proof fn lemma_broken_behind_the_height(
    lead: Seq<char>,
    width: Seq<char>,
    height: Seq<char>,
    left: Seq<char>,
    k: int,
    rest: Seq<char>,
)
    requires
        all_digits(width),
        all_digits(height),
        all_digits(left),
        5 <= k <= 6,
        breaks_off(rest, k),
    ensures
        ({
            let s = cut_words(lead, width, height, left, k) + rest;
            let w = (lead.len() + width.len()) as int;
            let h = w + 1 + height.len();
            let l = h + 1 + left.len();
            &&& number_before(s, lead.len() as int, 'x') == Some(w)
            &&& number_before(s, w + 1, ',') == Some(h)
            &&& number_before(s, h + 1, ',') == (if k <= 5 {
                None
            } else {
                Some(l)
            })
            &&& k >= 6 ==> number_end(s, l + 1) is None
        }),
{
    let s = cut_words(lead, width, height, left, k) + rest;
    assert(!is_digit(',') && !is_digit('x'));
    let x = seq!['x'];
    let c = seq![','];
    let tail = if k == 5 {
        rest
    } else {
        c + rest
    };
    let w = (lead.len() + width.len()) as int;
    let h = w + 1 + height.len();
    let l = h + 1 + left.len();
    assert(s =~= lead + width + (x + height + c + left + tail));
    lemma_number_passed(lead, width, x + height + c + left + tail, 'x');
    assert(s =~= (lead + width + x) + height + (c + left + tail));
    lemma_number_passed(lead + width + x, height, c + left + tail, ',');
    assert(s =~= (lead + width + x + height + c) + left + tail);
    lemma_number_passed(lead + width + x + height + c, left, tail, ',');
    if k == 6 {
        assert(s.len() > l + 1 ==> s[l + 1] == rest[0]);
        lemma_no_number(s, l + 1);
    }
}

// ---------------------------------------------------------------------------
// Readings that come to an end
// ---------------------------------------------------------------------------

/// Where the text ends, the reading ends, with no more layout steps, wherever it was.
pub proof fn law_reading_ends_with_the_text(
    parsed: nat,
    layouts: Seq<LayoutView>,
    stack: Option<Seq<PaneItem>>,
)
    ensures
        read_layout(seq![], parsed, layouts, stack).end == LayoutEnd::Done(0),
        read_layout(seq![], parsed, layouts, stack).layouts == layouts,
{
    reveal_with_fuel(read_layout, 1);
}

/// A text that does not start with a cell cannot be read, but for the end of a divided cell inside
/// one; nor can a cell that is neither a pane nor the beginning of a divided cell. No layout step
/// comes of it.
pub proof fn law_reading_gets_stuck(
    s: Seq<char>,
    parsed: nat,
    layouts: Seq<LayoutView>,
    stack: Option<Seq<PaneItem>>,
)
    requires
        s.len() > 0,
        pane_at(s) is Absent && (stack is None || (s[0] != '}' && s[0] != ']')) || (pane_at(s) is Pane
            && opening(s) is None && pane_len(s) is None),
    ensures
        read_layout(s, parsed, layouts, stack).end == LayoutEnd::Fault(LayoutFault::Stuck),
        read_layout(s, parsed, layouts, stack).layouts == layouts,
{
    reveal_with_fuel(read_layout, 1);
    if pane_at(s) is Pane {
        lemma_cell_starts(s);
    }
}

/// A cell starts with a digit or a comma.
proof fn lemma_cell_starts(s: Seq<char>)
    requires
        cell_spans(s) is Some,
    ensures
        s.len() > 0,
        s[0] != '}' && s[0] != ']',
{
    reveal(cell_spans);
    assert(!is_digit('}') && !is_digit(']'));
}

/// A number that does not fit makes a pane or the beginning of a divided cell unreadable. No layout
/// step comes of it.
pub proof fn law_reading_wants_fitting_numbers(
    s: Seq<char>,
    parsed: nat,
    layouts: Seq<LayoutView>,
    stack: Option<Seq<PaneItem>>,
)
    requires
        pane_at(s) is BadNumber,
        opening(s) is Some || pane_len(s) is Some,
    ensures
        read_layout(s, parsed, layouts, stack).end == LayoutEnd::Fault(LayoutFault::Number),
        read_layout(s, parsed, layouts, stack).layouts == layouts,
{
    reveal_with_fuel(read_layout, 1);
    lemma_cell_starts(s);
}

/// The end of a divided cell with cells in it gives its layout step, a row for a brace and a column
/// for a bracket, before those there were: the cell itself, with the number of the last cell in it,
/// and the cells in it but the last. The reading ends one character further.
pub proof fn law_end_of_a_cell_gives_a_step(
    brace: bool,
    rest: Seq<char>,
    parsed: nat,
    layouts: Seq<LayoutView>,
    inside: Seq<PaneItem>,
)
    requires
        inside.len() >= 2,
        parsed < usize::MAX,
    ensures
        ({
            let mark = if brace {
                '}'
            } else {
                ']'
            };
            let read = read_layout(seq![mark] + rest, parsed, layouts, Some(inside));
            let panes = read.layouts[0].panes();
            &&& read.end matches LayoutEnd::Done(n) && n == parsed + 1
            &&& read.layouts.len() == layouts.len() + 1
            &&& read.layouts.skip(1) == layouts
            &&& brace ==> read.layouts[0] is SplitHorizontal
            &&& !brace ==> read.layouts[0] is SplitVertical
            &&& panes.len() == inside.len() - 1
            &&& panes[0] == (PaneItem { pane_id: inside.last().pane_id, ..inside[0] })
            &&& forall|i: int| 1 <= i < panes.len() ==> #[trigger] panes[i] == inside[i]
        }),
{
    let s = seq![
        if brace {
            '}'
        } else {
            ']'
        },
    ] + rest;
    lemma_mark_is_no_cell(s);
    reveal_with_fuel(read_layout, 1);
    assert(read_layout(s, parsed, layouts, Some(inside)).layouts.skip(1) =~= layouts);
}

proof fn lemma_mark_is_no_cell(s: Seq<char>)
    requires
        s.len() > 0,
        s[0] == '}' || s[0] == ']',
    ensures
        cell_spans(s) is None,
{
    if cell_spans(s) is Some {
        lemma_cell_starts(s);
    }
}

/// The end of a divided cell with no cell in it makes the layout unreadable.
pub proof fn law_divided_cell_is_not_empty(
    s: Seq<char>,
    parsed: nat,
    layouts: Seq<LayoutView>,
    inside: Seq<PaneItem>,
)
    requires
        s.len() > 0,
        s[0] == '}' || s[0] == ']',
        inside.len() < 2,
    ensures
        read_layout(s, parsed, layouts, Some(inside)).end == LayoutEnd::Fault(
            LayoutFault::EmptySplit,
        ),
        read_layout(s, parsed, layouts, Some(inside)).layouts == layouts,
{
    lemma_mark_is_no_cell(s);
    reveal_with_fuel(read_layout, 1);
}

/// A divided cell inside another one hands its first pane to that one, and is turned down where the
/// first layout step by then is a single pane. It makes the layout unreadable where there is no
/// layout step by then, which is so where the text ends before it.
pub proof fn law_divided_cell_hands_over_its_first_pane(
    s: Seq<char>,
    n: int,
    cell: PaneItem,
    m: usize,
    parsed: nat,
    layouts: Seq<LayoutView>,
    inside: Seq<PaneItem>,
)
    requires
        opening(s) == Some(n),
        pane_at(s) == PaneAt::Pane(cell),
        read_layout(s.skip(n), 0, layouts, Some(seq![cell])).end == LayoutEnd::Done(m),
        n + m <= s.len(),
    ensures
        ({
            let found = read_layout(s.skip(n), 0, layouts, Some(seq![cell])).layouts;
            let whole = read_layout(s, parsed, layouts, Some(inside));
            &&& found.len() == 0 ==> whole.end == LayoutEnd::Fault(LayoutFault::UnclosedSplit)
                && whole.layouts == found
            &&& found.len() > 0 && found[0] is SinglePane ==> whole.end == LayoutEnd::NotRight
                && whole.layouts == found
            &&& found.len() > 0 && !(found[0] is SinglePane) && found[0].panes().len() > 0
                ==> whole == read_layout(
                s.skip(n + m),
                (parsed + n + m) as nat,
                found,
                Some(inside.push(found[0].panes()[0])),
            )
        }),
{
    reveal_with_fuel(read_layout, 1);
    lemma_cell_starts(s);
}

/// A pane at the outermost level is the last layout step, and ends the reading, whatever stands
/// behind it; inside a divided cell it is one more pane of that, and the reading goes on behind it.
pub proof fn law_pane_ends_the_reading_at_the_outermost_level(
    s: Seq<char>,
    n: int,
    pane: PaneItem,
    parsed: nat,
    layouts: Seq<LayoutView>,
    inside: Seq<PaneItem>,
)
    requires
        opening(s) is None,
        pane_len(s) == Some(n),
        pane_at(s) == PaneAt::Pane(pane),
        parsed + n <= usize::MAX,
    ensures
        ({
            let outer = read_layout(s, parsed, layouts, None);
            &&& outer.end matches LayoutEnd::Done(m) && m == parsed + n
            &&& outer.layouts == layouts.push(LayoutView::SinglePane(pane))
        }),
        read_layout(s, parsed, layouts, Some(inside)) == read_layout(
            s.skip(n),
            (parsed + n) as nat,
            layouts,
            Some(inside.push(pane)),
        ),
{
    lemma_cell_starts(s);
    lemma_cell_spans(s);
    reveal_with_fuel(read_layout, 1);
}

/// Behind a divided cell at the outermost level the reading goes on, with the layout steps of that
/// cell; one that cannot be read ends it.
pub proof fn law_reading_goes_on_behind_a_divided_cell(
    s: Seq<char>,
    n: int,
    cell: PaneItem,
    parsed: nat,
    layouts: Seq<LayoutView>,
)
    requires
        s.len() <= usize::MAX,
        opening(s) == Some(n),
        pane_at(s) == PaneAt::Pane(cell),
    ensures
        ({
            let inner = read_layout(s.skip(n), 0, layouts, Some(seq![cell]));
            let whole = read_layout(s, parsed, layouts, None);
            match inner.end {
                LayoutEnd::Done(m) => n + m <= s.len() && whole == read_layout(
                    s.skip(n + m),
                    (parsed + n + m) as nat,
                    inner.layouts,
                    None,
                ),
                _ => whole == inner,
            }
        }),
{
    lemma_cell_starts(s);
    lemma_cell_spans(s);
    lemma_read_within(s.skip(n), 0, layouts, Some(seq![cell]));
    reveal_with_fuel(read_layout, 1);
}

// ---------------------------------------------------------------------------
// Layout steps
// ---------------------------------------------------------------------------

/// Whether a pane takes up a place.
pub open spec fn is_at(pane: PaneItem, place: Place, id: u64) -> bool {
    &&& pane.pane_id == id
    &&& pane.pane_width == place.width
    &&& pane.pane_height == place.height
    &&& pane.pane_left == place.left
    &&& pane.pane_top == place.top
}

/// Whether a layout step divides a cell: side by side where the cell is divided so, one above the
/// other where it is not; its first pane takes up the cell, and the others the cells inside, but for
/// the last one.
pub open spec fn divides(step: LayoutView, place: Place, across: bool, inner: Seq<Cell>) -> bool {
    let panes = step.panes();
    &&& across ==> step is SplitHorizontal
    &&& !across ==> step is SplitVertical
    &&& panes.len() == inner.len()
    &&& panes.len() >= 1
    &&& is_at(panes[0], place, last_id(inner[inner.len() - 1]))
    &&& forall|k: int|
        1 <= k < panes.len() ==> is_at(
            #[trigger] panes[k],
            inner[k - 1].place(),
            last_id(inner[k - 1]),
        )
}

/// Whether a layout step divides a cell or one inside it.
pub open spec fn divides_in(step: LayoutView, cell: Cell) -> bool
    decreases cell,
{
    match cell {
        Cell::Pane(_, _) => false,
        Cell::Split(place, across, inner) => divides(step, place, across, inner) || divides_inside(
            step,
            inner,
        ),
    }
}

pub open spec fn divides_inside(step: LayoutView, cells: Seq<Cell>) -> bool
    decreases cells,
{
    cells.len() > 0 && (divides_in(step, cells[0]) || divides_inside(step, cells.skip(1)))
}

proof fn lemma_steps_divide(cell: Cell)
    requires
        well_formed(cell),
    ensures
        forall|l: int| 0 <= l < steps(cell).len() ==> divides_in(#[trigger] steps(cell)[l], cell),
    decreases cell, 0nat,
{
    if let Cell::Split(place, across, inner) = cell {
        lemma_steps_inside_divide(inner);
        let first = division(cell, across, inner);
        assert(divides(first, place, across, inner)) by {
            let panes = first.panes();
            assert forall|k: int| 1 <= k < panes.len() implies is_at(
                #[trigger] panes[k],
                inner[k - 1].place(),
                last_id(inner[k - 1]),
            ) by {
                assert(panes[k] == heads(inner.drop_last())[k - 1]);
                assert(panes[k] == head(inner[k - 1]));
            }
        }
        assert forall|l: int| 0 <= l < steps(cell).len() implies divides_in(
            #[trigger] steps(cell)[l],
            cell,
        ) by {
            if l > 0 {
                assert(steps(cell)[l] == steps_inside(inner)[l - 1]);
            }
        }
    }
}

proof fn lemma_steps_inside_divide(cells: Seq<Cell>)
    requires
        all_well_formed(cells),
    ensures
        forall|l: int|
            0 <= l < steps_inside(cells).len() ==> divides_inside(
                #[trigger] steps_inside(cells)[l],
                cells,
            ),
    decreases cells, 1nat,
{
    if cells.len() > 0 {
        let tail = cells.skip(1);
        lemma_steps_divide(cells[0]);
        lemma_steps_inside_divide(tail);
        let n = steps_inside(tail).len() as int;
        assert forall|l: int| 0 <= l < steps_inside(cells).len() implies divides_inside(
            #[trigger] steps_inside(cells)[l],
            cells,
        ) by {
            if l < n {
                assert(steps_inside(cells)[l] == steps_inside(tail)[l]);
            } else {
                assert(steps_inside(cells)[l] == steps(cells[0])[l - n]);
            }
        }
    }
}

/// Each layout step of a divided window divides a cell of it, into panes of the size and at the
/// place of the cells inside, the first step the window itself; and a window that is not divided has
/// its one pane, of its size, as its one step.
pub proof fn law_steps_divide_the_cells(cell: Cell)
    requires
        well_formed(cell),
    ensures
        match cell {
            Cell::Pane(place, id) => window_steps(cell).len() == 1 && (window_steps(cell)[0] matches
                LayoutView::SinglePane(pane) && is_at(pane, place, id)),
            Cell::Split(place, across, inner) => {
                &&& window_steps(cell).len() >= 1
                &&& divides(window_steps(cell)[0], place, across, inner)
                &&& forall|l: int|
                    0 <= l < window_steps(cell).len() ==> divides_in(
                        #[trigger] window_steps(cell)[l],
                        cell,
                    )
            },
        },
{
    lemma_steps_divide(cell);
    if let Cell::Split(place, across, inner) = cell {
        let first = division(cell, across, inner);
        assert(window_steps(cell)[0] == first);
        let panes = first.panes();
        assert forall|k: int| 1 <= k < panes.len() implies is_at(
            #[trigger] panes[k],
            inner[k - 1].place(),
            last_id(inner[k - 1]),
        ) by {
            assert(panes[k] == heads(inner.drop_last())[k - 1]);
            assert(panes[k] == head(inner[k - 1]));
        }
    }
}

/// What is read from the layout string of a divided window is a row where the string ends with a
/// brace, and a column where it ends with a bracket.
pub proof fn law_brace_means_side_by_side(cell: Cell, layouts: Seq<LayoutView>)
    requires
        well_formed(cell),
        cell is Split,
        cell_text(cell).len() <= usize::MAX,
    ensures
        ({
            let read = read_layout(cell_text(cell), 0, layouts, None).layouts;
            &&& read.len() > 0
            &&& read[0] is SplitHorizontal <==> cell_text(cell).last() == '}'
            &&& read[0] is SplitVertical <==> cell_text(cell).last() == ']'
        }),
{
    law_layout_reads_back(cell, layouts);
    law_steps_divide_the_cells(cell);
}

} // verus!
