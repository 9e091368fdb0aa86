//! What holds of the lines that are sent to tmux, and of the words for what is missing.

use crate::commands::{keys_words, CapturePane, Command, Resize, SendKeys, TmuxCommand};
use crate::domain::{PaneId, TabId};
use crate::items::TmuxPaneId;
use crate::text::{
    decimal, hex, is_ascii_digit, is_decimal_of, joined, law_decimal_is_as_usual,
    law_decimal_reads_back, law_split_undoes_join, lemma_pieces_first, pieces,
};
use crate::window_sync::{SyncError, WindowId};
use vstd::prelude::*;

verus! {

// ---------------------------------------------------------------------------
// Keys
// ---------------------------------------------------------------------------

/// What a hexadecimal digit is worth.
pub open spec fn hex_digit_value(c: char) -> nat {
    if is_ascii_digit(c) {
        (c as u32 - '0' as u32) as nat
    } else {
        (c as u32 - 'A' as u32 + 10) as nat
    }
}

/// A text read in base sixteen.
pub open spec fn hex_value(s: Seq<char>) -> nat
    decreases s.len(),
{
    if s.len() == 0 {
        0
    } else {
        hex_value(s.drop_last()) * 16 + hex_digit_value(s.last())
    }
}

/// A byte in base sixteen reads back as itself, and has no space in it.
pub proof fn law_hex_reads_back(b: u8)
    ensures
        hex_value(hex(b)) == b,
        printable(hex(b)),
        !hex(b).contains(' '),
{
    reveal_with_fuel(hex_value, 3);
    let s = hex(b);
    if b < 16 {
        assert(s.drop_last() =~= seq![]);
    } else {
        assert(s.drop_last() =~= seq![s[0]]);
        assert(seq![s[0]].drop_last() =~= seq![]);
    }
}

/// A key in words.
pub open spec fn key_word(key: u8) -> Seq<char> {
    "0x"@ + hex(key)
}

proof fn lemma_key_word(key: u8)
    ensures
        printable(key_word(key)),
        !key_word(key).contains(' '),
        key_word(key).skip(2) == hex(key),
{
    reveal_strlit("0x");
    law_hex_reads_back(key);
    let word = key_word(key);
    lemma_printable_concat("0x"@, hex(key));
    assert(word.skip(2) =~= hex(key));
    if word.contains(' ') {
        let i = choose|i: int| 0 <= i < word.len() && word[i] == ' ';
        if i >= 2 {
            assert(hex(key)[i - 2] == ' ');
        }
    }
}

proof fn lemma_keys_words_first(keys: Seq<u8>)
    requires
        keys.len() > 0,
    ensures
        keys_words(keys) == key_word(keys[0]) + seq![' '] + keys_words(keys.skip(1)),
    decreases keys.len(),
{
    reveal_strlit(" ");
    assert(" "@ =~= seq![' ']);
    let tail = keys.skip(1);
    if keys.len() == 1 {
        assert(keys.drop_last() =~= seq![]);
        assert(tail =~= seq![]);
        assert(keys_words(keys.drop_last()).len() == 0);
        assert(keys_words(keys) =~= key_word(keys[0]) + seq![' '] + keys_words(tail));
    } else {
        lemma_keys_words_first(keys.drop_last());
        assert(keys.drop_last().skip(1) =~= tail.drop_last());
        assert(keys_words(keys) =~= key_word(keys[0]) + seq![' '] + keys_words(tail));
    }
}

/// The keys that are sent read back: the words for them are as many as the keys, each of them
/// `0x` and a number in base sixteen, and that number is the key.
pub proof fn law_keys_read_back(keys: Seq<u8>)
    ensures
        pieces(keys_words(keys), ' ') == keys.map_values(|key: u8| key_word(key)).push(seq![]),
        forall|i: int|
            0 <= i < keys.len() ==> hex_value(
                (#[trigger] pieces(keys_words(keys), ' ')[i]).skip(2),
            ) == keys[i],
    decreases keys.len(),
{
    let words = keys.map_values(|key: u8| key_word(key));
    if keys.len() == 0 {
        let s = Seq::<char>::empty();
        assert(keys_words(keys) == s);
        assert(s.subrange(0, 0) == s);
        assert(pieces(s, ' ') =~= words.push(seq![]));
    } else {
        let tail = keys.skip(1);
        lemma_keys_words_first(keys);
        lemma_key_word(keys[0]);
        law_keys_read_back(tail);
        lemma_pieces_first(key_word(keys[0]), ' ', keys_words(tail));
        assert(seq![key_word(keys[0])] + tail.map_values(|key: u8| key_word(key)).push(seq![])
            =~= words.push(seq![]));
    }
    assert forall|i: int| 0 <= i < keys.len() implies hex_value(
        (#[trigger] pieces(keys_words(keys), ' ')[i]).skip(2),
    ) == keys[i] by {
        lemma_key_word(keys[i]);
        law_hex_reads_back(keys[i]);
    }
}

// ---------------------------------------------------------------------------
// Lines
// ---------------------------------------------------------------------------

/// Whether a text is made of ASCII characters that are no control characters.
pub open spec fn printable(s: Seq<char>) -> bool {
    forall|i: int| 0 <= i < s.len() ==> 0x20 <= (#[trigger] s[i] as u32) < 0x7f
}

proof fn lemma_printable_concat(a: Seq<char>, b: Seq<char>)
    requires
        printable(a),
        printable(b),
    ensures
        printable(a + b),
{
    let ab = a + b;
    assert forall|i: int| 0 <= i < ab.len() implies 0x20 <= (#[trigger] ab[i] as u32) < 0x7f by {
        if i < a.len() {
            assert(ab[i] == a[i]);
        } else {
            assert(ab[i] == b[i - a.len()]);
        }
    }
}

proof fn lemma_printable_decimal(n: nat)
    ensures
        printable(decimal(n)),
{
    law_decimal_reads_back(n, n);
    let s = decimal(n);
    assert forall|i: int| 0 <= i < s.len() implies 0x20 <= (#[trigger] s[i] as u32) < 0x7f by {
        assert(is_ascii_digit(s[i]));
    }
}

proof fn lemma_printable_keys(keys: Seq<u8>)
    ensures
        printable(keys_words(keys)),
    decreases keys.len(),
{
    if keys.len() > 0 {
        lemma_printable_keys(keys.drop_last());
        reveal_strlit("0x");
        reveal_strlit(" ");
        law_hex_reads_back(keys.last());
        let front = keys_words(keys.drop_last());
        lemma_printable_concat(front, "0x"@);
        lemma_printable_concat(front + "0x"@, hex(keys.last()));
        lemma_printable_concat(front + "0x"@ + hex(keys.last()), " "@);
    }
}

/// A command is one line: it ends with a control character, a line feed or, where keys are sent, a
/// carriage return; and no control character, and nothing beyond ASCII, stands before that.
pub proof fn law_command_is_one_line(command: Command)
    ensures
        command.words().len() > 0,
        command.words().last() == (if command is SendKeys {
            '\r'
        } else {
            '\n'
        }),
        printable(command.words().drop_last()),
{
    let words = command.words();
    match command {
        Command::ListAllPanes(_) => {
            reveal_strlit("list-panes -aF '#{session_id} #{window_id} #{pane_id} #{pane_index} #{cursor_x} #{cursor_y} #{pane_width} #{pane_height} #{pane_left} #{pane_top} #{pane_active}'\n");
        },
        Command::ListAllWindows(_) => {
            reveal_strlit("list-windows -aF '#{session_id} #{window_id} #{window_width} #{window_height} #{window_active} #{window_layout}'\n");
        },
        Command::Resize(resize) => {
            reveal_strlit("resize-pane -x ");
            reveal_strlit(" -y ");
            reveal_strlit(" -t %");
            reveal_strlit("\n");
            let x = decimal(resize.size.cols as nat);
            let y = decimal(resize.size.rows as nat);
            let id = decimal(resize.pane_id as nat);
            lemma_printable_decimal(resize.size.cols as nat);
            lemma_printable_decimal(resize.size.rows as nat);
            lemma_printable_decimal(resize.pane_id as nat);
            let a = "resize-pane -x "@ + x;
            lemma_printable_concat("resize-pane -x "@, x);
            lemma_printable_concat(a, " -y "@);
            lemma_printable_concat(a + " -y "@, y);
            lemma_printable_concat(a + " -y "@ + y, " -t %"@);
            lemma_printable_concat(a + " -y "@ + y + " -t %"@, id);
            assert(words.drop_last() =~= a + " -y "@ + y + " -t %"@ + id);
        },
        Command::CapturePane(capture) => {
            reveal_strlit("capture-pane -p -t %");
            reveal_strlit(" -e -C\n");
            let id = decimal(capture.0 as nat);
            lemma_printable_decimal(capture.0 as nat);
            let end = " -e -C\n"@.drop_last();
            lemma_printable_concat("capture-pane -p -t %"@, id);
            lemma_printable_concat("capture-pane -p -t %"@ + id, end);
            assert(words.drop_last() =~= "capture-pane -p -t %"@ + id + end);
        },
        Command::SendKeys(send) => {
            reveal_strlit("send-keys -t %");
            reveal_strlit(" ");
            reveal_strlit("\r");
            let id = decimal(send.pane as nat);
            let keys = keys_words(send.keys@);
            lemma_printable_decimal(send.pane as nat);
            lemma_printable_keys(send.keys@);
            let a = "send-keys -t %"@ + id;
            lemma_printable_concat("send-keys -t %"@, id);
            lemma_printable_concat(a, " "@);
            lemma_printable_concat(a + " "@, keys);
            assert(words.drop_last() =~= a + " "@ + keys);
        },
    }
}

// ---------------------------------------------------------------------------
// Words
// ---------------------------------------------------------------------------

/// Whether a word names a pane: `%`, and the number of the pane in base ten.
pub open spec fn names_pane(word: Seq<char>, pane_id: TmuxPaneId) -> bool {
    word.len() > 0 && word[0] == '%' && is_decimal_of(word.skip(1), pane_id as nat)
}

/// The name of a pane.
spec fn pane_name(pane_id: TmuxPaneId) -> Seq<char> {
    seq!['%'] + decimal(pane_id as nat)
}

proof fn lemma_pane_name(pane_id: TmuxPaneId)
    ensures
        names_pane(pane_name(pane_id), pane_id),
        !pane_name(pane_id).contains(' '),
{
    let name = pane_name(pane_id);
    law_decimal_is_as_usual(pane_id as nat);
    assert(name.skip(1) =~= decimal(pane_id as nat));
    lemma_digits_have_no_space(decimal(pane_id as nat), pane_id as nat);
    if name.contains(' ') {
        let i = choose|i: int| 0 <= i < name.len() && name[i] == ' ';
        assert(decimal(pane_id as nat)[i - 1] == ' ');
    }
}

proof fn lemma_digits_have_no_space(s: Seq<char>, n: nat)
    requires
        is_decimal_of(s, n),
    ensures
        !s.contains(' '),
{
    if s.contains(' ') {
        let i = choose|i: int| 0 <= i < s.len() && s[i] == ' ';
        assert(is_ascii_digit(s[i]));
    }
}

/// A word that has no space in it is the one word there is.
proof fn lemma_one_word(word: Seq<char>)
    requires
        !word.contains(' '),
    ensures
        pieces(word, ' ') == seq![word],
{
    let words = seq![word];
    law_split_undoes_join(words, ' ');
    assert(joined(words, ' ') == word);
}

/// The command that gives a pane another size says so: behind `-x` stand the columns, behind `-y`
/// the rows and behind `-t` the pane, and nothing else stands in the line.
pub proof fn law_resize_reads_back(resize: Resize)
    ensures
        ({
            let line = resize.words();
            let words = pieces(line.drop_last(), ' ');
            &&& line.len() > 0 && line.last() == '\n'
            &&& words.len() == 7
            &&& words[0] == "resize-pane"@
            &&& words[1] == "-x"@
            &&& is_decimal_of(words[2], resize.size.cols as nat)
            &&& words[3] == "-y"@
            &&& is_decimal_of(words[4], resize.size.rows as nat)
            &&& words[5] == "-t"@
            &&& names_pane(words[6], resize.pane_id)
        }),
{
    reveal_strlit("resize-pane -x ");
    reveal_strlit(" -y ");
    reveal_strlit(" -t %");
    reveal_strlit("\n");
    reveal_strlit("resize-pane");
    reveal_strlit("-x");
    reveal_strlit("-y");
    reveal_strlit("-t");
    let x = decimal(resize.size.cols as nat);
    let y = decimal(resize.size.rows as nat);
    let id = pane_name(resize.pane_id);
    let sp = seq![' '];
    law_decimal_is_as_usual(resize.size.cols as nat);
    law_decimal_is_as_usual(resize.size.rows as nat);
    lemma_digits_have_no_space(x, resize.size.cols as nat);
    lemma_digits_have_no_space(y, resize.size.rows as nat);
    lemma_pane_name(resize.pane_id);
    let r5 = "-t"@ + sp + id;
    let r4 = y + sp + r5;
    let r3 = "-y"@ + sp + r4;
    let r2 = x + sp + r3;
    let r1 = "-x"@ + sp + r2;
    let r0 = "resize-pane"@ + sp + r1;
    assert("resize-pane -x "@ =~= "resize-pane"@ + sp + "-x"@ + sp);
    assert(" -y "@ =~= sp + "-y"@ + sp);
    assert(" -t %"@ =~= sp + "-t"@ + sp + seq!['%']);
    assert(resize.words().drop_last() =~= r0);
    lemma_one_word(id);
    lemma_pieces_first("-t"@, ' ', id);
    lemma_pieces_first(y, ' ', r5);
    lemma_pieces_first("-y"@, ' ', r4);
    lemma_pieces_first(x, ' ', r3);
    lemma_pieces_first("-x"@, ' ', r2);
    lemma_pieces_first("resize-pane"@, ' ', r1);
}

/// The command that asks for what a pane shows says so: behind `-t` stands the pane.
pub proof fn law_capture_reads_back(capture: CapturePane)
    ensures
        ({
            let line = capture.words();
            let words = pieces(line.drop_last(), ' ');
            &&& line.len() > 0 && line.last() == '\n'
            &&& words.len() == 6
            &&& words[0] == "capture-pane"@
            &&& words[1] == "-p"@
            &&& words[2] == "-t"@
            &&& names_pane(words[3], capture.0)
            &&& words[4] == "-e"@
            &&& words[5] == "-C"@
        }),
{
    reveal_strlit("capture-pane -p -t %");
    reveal_strlit(" -e -C\n");
    reveal_strlit("capture-pane");
    reveal_strlit("-p");
    reveal_strlit("-t");
    reveal_strlit("-e");
    reveal_strlit("-C");
    let id = pane_name(capture.0);
    let sp = seq![' '];
    lemma_pane_name(capture.0);
    let r4 = "-e"@ + sp + "-C"@;
    let r3 = id + sp + r4;
    let r2 = "-t"@ + sp + r3;
    let r1 = "-p"@ + sp + r2;
    let r0 = "capture-pane"@ + sp + r1;
    assert("capture-pane -p -t %"@ =~= "capture-pane"@ + sp + "-p"@ + sp + "-t"@ + sp + seq!['%']);
    assert(" -e -C\n"@ =~= sp + "-e"@ + sp + "-C"@ + seq!['\n']);
    assert(capture.words().drop_last() =~= r0);
    lemma_one_word("-C"@);
    lemma_pieces_first("-e"@, ' ', "-C"@);
    lemma_pieces_first(id, ' ', r4);
    lemma_pieces_first("-t"@, ' ', r3);
    lemma_pieces_first("-p"@, ' ', r2);
    lemma_pieces_first("capture-pane"@, ' ', r1);
}

/// The command that sends keys says so: behind `-t` stands the pane, and then the keys follow, each
/// as `0x` and the key in base sixteen, with a space behind it.
pub proof fn law_send_keys_reads_back(send: SendKeys)
    ensures
        ({
            let line = send.words();
            let words = pieces(line.drop_last(), ' ');
            let keys = send.keys@;
            &&& line.len() > 0 && line.last() == '\r'
            &&& words.len() == keys.len() + 4
            &&& words[0] == "send-keys"@
            &&& words[1] == "-t"@
            &&& names_pane(words[2], send.pane)
            &&& forall|i: int|
                0 <= i < keys.len() ==> (#[trigger] words[i + 3]).len() > 2 && words[i + 3].take(2)
                    == "0x"@ && hex_value(words[i + 3].skip(2)) == keys[i]
            &&& words.last() == Seq::<char>::empty()
        }),
{
    reveal_strlit("send-keys -t %");
    reveal_strlit(" ");
    reveal_strlit("\r");
    reveal_strlit("send-keys");
    reveal_strlit("-t");
    let id = pane_name(send.pane);
    let sp = seq![' '];
    let keys = keys_words(send.keys@);
    lemma_pane_name(send.pane);
    let r2 = id + sp + keys;
    let r1 = "-t"@ + sp + r2;
    let r0 = "send-keys"@ + sp + r1;
    assert("send-keys -t %"@ =~= "send-keys"@ + sp + "-t"@ + sp + seq!['%']);
    assert(" "@ =~= sp);
    assert(send.words().drop_last() =~= r0);
    law_keys_read_back(send.keys@);
    lemma_pieces_first(id, ' ', keys);
    lemma_pieces_first("-t"@, ' ', r2);
    lemma_pieces_first("send-keys"@, ' ', r1);
    let words = pieces(send.words().drop_last(), ' ');
    assert forall|i: int| 0 <= i < send.keys@.len() implies (#[trigger] words[i + 3]).len() > 2
        && words[i + 3].take(2) == "0x"@ && hex_value(words[i + 3].skip(2)) == send.keys@[i] by {
        let key = send.keys@[i];
        reveal_strlit("0x");
        assert(words[i + 3] == pieces(keys, ' ')[i]);
        assert(words[i + 3] == key_word(key));
        assert(words[i + 3].take(2) =~= "0x"@);
        assert(hex(key).len() > 0);
    }
}

/// Commands that are worded alike are for the same pane and, where they give it a size or send it
/// keys, the same size and keys.
pub proof fn law_commands_differ(a: Command, b: Command)
    requires
        a.words() == b.words(),
    ensures
        match (a, b) {
            (Command::Resize(r), Command::Resize(q)) => r.pane_id == q.pane_id && r.size.cols
                == q.size.cols && r.size.rows == q.size.rows,
            (Command::CapturePane(r), Command::CapturePane(q)) => r == q,
            (Command::SendKeys(r), Command::SendKeys(q)) => r.pane == q.pane && r.keys@ == q.keys@,
            _ => true,
        },
{
    match (a, b) {
        (Command::Resize(r), Command::Resize(q)) => {
            law_resize_reads_back(r);
            law_resize_reads_back(q);
        },
        (Command::CapturePane(r), Command::CapturePane(q)) => {
            law_capture_reads_back(r);
            law_capture_reads_back(q);
        },
        (Command::SendKeys(r), Command::SendKeys(q)) => {
            law_send_keys_reads_back(r);
            law_send_keys_reads_back(q);
            let words = pieces(r.words().drop_last(), ' ');
            assert forall|i: int| 0 <= i < r.keys@.len() implies r.keys@[i] == q.keys@[i] by {
                assert(hex_value(words[i + 3].skip(2)) == r.keys@[i]);
            }
            assert(r.keys@ =~= q.keys@);
        },
        _ => {},
    }
}

// ---------------------------------------------------------------------------
// Errors
// ---------------------------------------------------------------------------

/// The words for a pane that is not in the tab end with its name; those for a tab that is not in the
/// window name the tab first, and then the window.
pub proof fn law_sync_error_names_what_is_missing(local: PaneId, tab_id: TabId, gui_window: WindowId)
    ensures
        ({
            let words = pieces(SyncError::InvalidPane(local).words(), ' ');
            &&& words.len() == 4
            &&& words[0] == "invalid"@
            &&& words[1] == "pane"@
            &&& words[2] == "id"@
            &&& is_decimal_of(words[3], local as nat)
        }),
        ({
            let words = pieces(SyncError::TabNotInWindow { tab_id, gui_window }.words(), ' ');
            &&& words.len() == 5
            &&& words[0] == "tab"@
            &&& is_decimal_of(words[1], tab_id as nat)
            &&& words[2] == "not"@
            &&& words[3] == "in"@
            &&& is_decimal_of(words[4], gui_window as nat)
        }),
{
    reveal_strlit("invalid pane id ");
    reveal_strlit("invalid");
    reveal_strlit("pane");
    reveal_strlit("id");
    reveal_strlit("tab ");
    reveal_strlit("tab");
    reveal_strlit(" not in ");
    reveal_strlit("not");
    reveal_strlit("in");
    let sp = seq![' '];
    let pane = decimal(local as nat);
    let tab = decimal(tab_id as nat);
    let window = decimal(gui_window as nat);
    law_decimal_is_as_usual(local as nat);
    law_decimal_is_as_usual(tab_id as nat);
    law_decimal_is_as_usual(gui_window as nat);
    lemma_digits_have_no_space(pane, local as nat);
    lemma_digits_have_no_space(tab, tab_id as nat);
    lemma_digits_have_no_space(window, gui_window as nat);
    let p2 = "id"@ + sp + pane;
    let p1 = "pane"@ + sp + p2;
    let p0 = "invalid"@ + sp + p1;
    assert("invalid pane id "@ =~= "invalid"@ + sp + "pane"@ + sp + "id"@ + sp);
    assert(SyncError::InvalidPane(local).words() =~= p0);
    lemma_one_word(pane);
    lemma_pieces_first("id"@, ' ', pane);
    lemma_pieces_first("pane"@, ' ', p2);
    lemma_pieces_first("invalid"@, ' ', p1);
    let t3 = "in"@ + sp + window;
    let t2 = "not"@ + sp + t3;
    let t1 = tab + sp + t2;
    let t0 = "tab"@ + sp + t1;
    assert("tab "@ =~= "tab"@ + sp);
    assert(" not in "@ =~= sp + "not"@ + sp + "in"@ + sp);
    assert(SyncError::TabNotInWindow { tab_id, gui_window }.words() =~= t0);
    lemma_one_word(window);
    lemma_pieces_first("in"@, ' ', window);
    lemma_pieces_first("not"@, ' ', t3);
    lemma_pieces_first(tab, ' ', t2);
    lemma_pieces_first("tab"@, ' ', t1);
}

} // verus!
