use tmux_commands::capture::{terminal_text, trim_line_ends};

#[test]
fn line_feeds_at_the_end_are_dropped() {
    for text in ["", "\n", "\n\n", "a", "a\n", "a\n\n", "\na\nb\n", "a\r\n", "a \n"] {
        assert_eq!(trim_line_ends(text), text.trim_end_matches('\n'));
    }
}

#[test]
fn line_feeds_get_a_carriage_return() {
    for text in ["", "\n", "a\nb", "\r\n", "a\n\nb\r"] {
        let shown = terminal_text(text);
        assert_eq!(shown, text.replace("\n", "\r\n"));
        assert_eq!(shown.replace('\r', ""), text.replace('\r', ""));
    }
    assert_eq!(terminal_text("a\nb\n"), "a\r\nb\r\n");
}
