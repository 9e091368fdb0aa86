//! What a pane shows, as tmux hands it over: escaped, with a line feed at the end of each line.

use crate::text::{chars_of, string_of};
use vstd::prelude::*;

verus! {

/// What an escaped text stands for or, where it is not escaped properly, what is said of that.
pub uninterp spec fn unescaped(s: Seq<char>) -> Result<Seq<char>, Seq<char>>;

/// `termwiz::tmux_cc::unvis`: undoes the escapes of vis(3). The text that comes out, or the words
/// of the error, are fixed by the text that goes in; a text without a backslash comes out as it is.
/// What the single escapes stand for, and how an error is worded, is not stated.
#[verifier::external_body]
pub(crate) fn unescape(s: &str) -> (text: Result<String, String>)
    ensures
        match unescaped(s@) {
            Ok(t) => text is Ok && text->Ok_0@ == t,
            Err(cause) => text is Err && text->Err_0@ == cause,
        },
        !s@.contains('\\') ==> text is Ok && text->Ok_0@ == s@,
{
    match termwiz::tmux_cc::unvis(s) {
        Ok(text) => Ok(text),
        Err(error) => Err(format!("{:#}", error)),
    }
}

/// A text without the line feeds at its end.
pub open spec fn trimmed(s: Seq<char>) -> Seq<char>
    decreases s.len(),
{
    if s.len() > 0 && s.last() == '\n' {
        trimmed(s.drop_last())
    } else {
        s
    }
}

/// A text with a carriage return before each line feed.
pub open spec fn with_returns(s: Seq<char>) -> Seq<char>
    decreases s.len(),
{
    if s.len() == 0 {
        seq![]
    } else if s.last() == '\n' {
        with_returns(s.drop_last()) + seq!['\r', '\n']
    } else {
        with_returns(s.drop_last()).push(s.last())
    }
}

/// Drops the line feeds at the end of a text.
pub fn trim_line_ends(text: &str) -> (rest: String)
    ensures
        rest@ == trimmed(text@),
{
    let chars = chars_of(text);
    let mut end: usize = chars.len();
    assert(chars@.take(end as int) == chars@);
    while end > 0 && chars[end - 1] == '\n'
        invariant
            end <= chars@.len(),
            chars@ == text@,
            trimmed(text@) == trimmed(text@.take(end as int)),
        decreases end,
    {
        assert(text@.take(end as int).drop_last() == text@.take(end - 1));
        end = end - 1;
    }
    assert(text@.subrange(0, end as int) == text@.take(end as int));
    string_of(vstd::slice::slice_subrange(chars.as_slice(), 0, end))
}

/// Puts a carriage return before each line feed, as a terminal wants it.
pub fn terminal_text(text: &str) -> (shown: String)
    ensures
        shown@ == with_returns(text@),
{
    let chars = chars_of(text);
    let mut shown = String::new();
    let mut i: usize = 0;
    while i < chars.len()
        invariant
            i <= chars@.len(),
            chars@ == text@,
            shown@ == with_returns(text@.take(i as int)),
        decreases chars.len() - i,
    {
        assert(text@.take(i + 1).drop_last() == text@.take(i as int));
        if chars[i] == '\n' {
            shown.push('\r');
            shown.push('\n');
            assert(shown@ =~= with_returns(text@.take(i as int)) + seq!['\r', '\n']);
        } else {
            shown.push(chars[i]);
        }
        i = i + 1;
    }
    assert(text@.take(text@.len() as int) == text@);
    shown
}

/// What is dropped from the end of a text are line feeds, and all that stand there.
pub proof fn law_trimmed_drops_the_line_feeds(s: Seq<char>)
    ensures
        trimmed(s).len() <= s.len(),
        trimmed(s) == s.take(trimmed(s).len() as int),
        forall|i: int| trimmed(s).len() <= i < s.len() ==> #[trigger] s[i] == '\n',
        trimmed(s).len() > 0 ==> trimmed(s).last() != '\n',
    decreases s.len(),
{
    if s.len() > 0 && s.last() == '\n' {
        law_trimmed_drops_the_line_feeds(s.drop_last());
        assert forall|i: int| trimmed(s).len() <= i < s.len() implies #[trigger] s[i] == '\n' by {
            if i < s.len() - 1 {
                assert(s.drop_last()[i] == s[i]);
            }
        }
    }
}

/// Every line feed that is shown has a carriage return before it, and but for carriage returns
/// nothing is added or lost.
pub proof fn law_line_feeds_have_returns(s: Seq<char>)
    ensures
        forall|i: int|
            0 <= i < with_returns(s).len() && #[trigger] with_returns(s)[i] == '\n' ==> i > 0
                && with_returns(s)[i - 1] == '\r',
        with_returns(s).filter(|c: char| c != '\r') == s.filter(|c: char| c != '\r'),
    decreases s.len(),
{
    reveal(Seq::filter);
    let kept = |c: char| c != '\r';
    if s.len() > 0 {
        let front = with_returns(s.drop_last());
        law_line_feeds_have_returns(s.drop_last());
        if s.last() == '\n' {
            let with_return = front.push('\r');
            assert(with_returns(s) =~= with_return.push('\n'));
            assert(with_return.push('\n').drop_last() =~= with_return);
            assert(with_return.drop_last() =~= front);
            assert(with_return.filter(kept) == front.filter(kept));
        } else {
            assert(with_returns(s).drop_last() =~= front);
        }
        assert forall|i: int|
            0 <= i < with_returns(s).len() && #[trigger] with_returns(s)[i] == '\n' implies i > 0
            && with_returns(s)[i - 1] == '\r' by {
            if i < front.len() {
                assert(with_returns(s)[i] == front[i]);
            }
        }
    }
}

/// How many line feeds a text has.
pub open spec fn line_feeds(s: Seq<char>) -> nat
    decreases s.len(),
{
    if s.len() == 0 {
        0
    } else {
        line_feeds(s.drop_last()) + (if s.last() == '\n' {
            1nat
        } else {
            0
        })
    }
}

/// A text without a line feed is shown as it is.
pub proof fn law_text_without_line_feeds_is_shown_as_it_is(s: Seq<char>)
    requires
        !s.contains('\n'),
    ensures
        with_returns(s) == s,
    decreases s.len(),
{
    if s.len() > 0 {
        let front = s.drop_last();
        assert(s[s.len() - 1] != '\n');
        assert(!front.contains('\n')) by {
            if front.contains('\n') {
                let i = choose|i: int| 0 <= i < front.len() && front[i] == '\n';
                assert(s[i] == '\n');
            }
        }
        law_text_without_line_feeds_is_shown_as_it_is(front);
        assert(front.push(s.last()) =~= s);
    }
}

/// Texts are shown one behind the other.
pub proof fn law_texts_are_shown_one_by_one(a: Seq<char>, b: Seq<char>)
    ensures
        with_returns(a + b) == with_returns(a) + with_returns(b),
    decreases b.len(),
{
    if b.len() == 0 {
        assert(a + b =~= a);
        assert(with_returns(b) =~= seq![]);
    } else {
        law_texts_are_shown_one_by_one(a, b.drop_last());
        assert((a + b).drop_last() =~= a + b.drop_last());
        assert((a + b).last() == b.last());
        assert(with_returns(a + b) =~= with_returns(a) + with_returns(b));
    }
}

/// A line is shown as it is, with a carriage return and a line feed behind it, and then what
/// follows is shown.
pub proof fn law_text_is_shown_line_by_line(line: Seq<char>, rest: Seq<char>)
    requires
        !line.contains('\n'),
    ensures
        with_returns(line + seq!['\n'] + rest) == line + seq!['\r', '\n'] + with_returns(rest),
{
    let end = seq!['\n'];
    law_text_without_line_feeds_is_shown_as_it_is(line);
    law_texts_are_shown_one_by_one(line + end, rest);
    law_texts_are_shown_one_by_one(line, end);
    assert(end.drop_last() =~= seq![]);
    assert(with_returns(end.drop_last()) =~= seq![]);
    assert(with_returns(end) =~= seq!['\r', '\n']);
    assert(line + end + rest =~= (line + end) + rest);
}

/// What is shown is longer than the text by one character for each line feed in it.
pub proof fn law_shown_text_is_longer_by_its_line_feeds(s: Seq<char>)
    ensures
        with_returns(s).len() == s.len() + line_feeds(s),
    decreases s.len(),
{
    if s.len() > 0 {
        law_shown_text_is_longer_by_its_line_feeds(s.drop_last());
    }
}

} // verus!
