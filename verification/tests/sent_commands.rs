use tmux_commands::commands::{
    CapturePane, Command, CommandError, Guarded, ListAllPanes, ListAllWindows, PtySize, Resize,
    SendKeys, TmuxCommand,
};
use tmux_commands::domain::{PaneSync, TmuxDomainState};
use tmux_commands::layout::LayoutFault;
use tmux_commands::listing::{Field, ListError, ListFault};
use tmux_commands::window_sync::SyncAction;
use tmux_commands::{PaneItem, TmuxLayout, WindowItem};

fn reply(output: &str) -> Guarded {
    Guarded { error: false, output: output.to_string() }
}

/// A domain of session 1 that shows pane 7 of window 3.
fn domain_with_pane() -> TmuxDomainState {
    let mut domain = TmuxDomainState::new(Some(1));
    let pane = PaneItem {
        session_id: 1,
        window_id: 3,
        pane_id: 7,
        _pane_index: 0,
        cursor_x: 0,
        cursor_y: 0,
        pane_width: 80,
        pane_height: 24,
        pane_left: 0,
        pane_top: 0,
        pane_active: false,
    };
    let window = WindowItem {
        session_id: 1,
        window_id: 3,
        window_width: 80,
        window_height: 24,
        window_active: true,
        layout: vec![TmuxLayout::SinglePane(pane)],
    };
    domain.create_pane(&window, &pane, 70);
    domain.add_attached_pane(&pane, &11).unwrap();
    domain
}

#[test]
fn commands_are_worded_as_tmux_wants_them() {
    assert_eq!(
        ListAllPanes.get_command(),
        "list-panes -aF '#{session_id} #{window_id} #{pane_id} \
            #{pane_index} #{cursor_x} #{cursor_y} #{pane_width} #{pane_height} \
            #{pane_left} #{pane_top} #{pane_active}'\n"
    );
    assert_eq!(
        ListAllWindows.get_command(),
        "list-windows -aF '#{session_id} #{window_id} #{window_width} #{window_height} #{window_active} #{window_layout}'\n"
    );
    let size = PtySize { rows: 24, cols: 80, pixel_width: 1, pixel_height: 2 };
    assert_eq!(Resize { pane_id: 12, size }.get_command(), "resize-pane -x 80 -y 24 -t %12\n");
    assert_eq!(CapturePane(305).get_command(), "capture-pane -p -t %305 -e -C\n");
    assert_eq!(
        SendKeys { keys: vec![0x0d, 0x61, 0xff, 0], pane: 4 }.get_command(),
        "send-keys -t %4 0xD 0x61 0xFF 0x0 \r"
    );
    assert_eq!(SendKeys { keys: vec![], pane: 0 }.get_command(), "send-keys -t %0 \r");
}

#[test]
fn a_waiting_command_is_worded_like_itself() {
    let size = PtySize { rows: 1, cols: 2, pixel_width: 0, pixel_height: 0 };
    let keys = SendKeys { keys: vec![1], pane: 2 };
    for (command, line) in [
        (Command::ListAllPanes(ListAllPanes), ListAllPanes.get_command()),
        (Command::ListAllWindows(ListAllWindows), ListAllWindows.get_command()),
        (Command::Resize(Resize { pane_id: 3, size }), "resize-pane -x 2 -y 1 -t %3\n".to_string()),
        (Command::CapturePane(CapturePane(3)), CapturePane(3).get_command()),
        (Command::SendKeys(keys), "send-keys -t %2 0x1 \r".to_string()),
    ] {
        assert_eq!(command.get_command(), line);
    }
}

#[test]
fn keys_read_back_from_the_command() {
    let keys: Vec<u8> = (0..=255).collect();
    let line = SendKeys { keys: keys.clone(), pane: 4 }.get_command();
    let words = line.strip_prefix("send-keys -t %4 ").unwrap().strip_suffix("\r").unwrap();
    let read: Vec<u8> = words
        .split_terminator(' ')
        .map(|word| u8::from_str_radix(word.strip_prefix("0x").unwrap(), 16).unwrap())
        .collect();
    assert_eq!(read, keys);
}

#[test]
fn a_command_is_one_line() {
    let size = PtySize { rows: 24, cols: 80, pixel_width: 0, pixel_height: 0 };
    for (command, end) in [
        (Command::ListAllPanes(ListAllPanes), '\n'),
        (Command::ListAllWindows(ListAllWindows), '\n'),
        (Command::Resize(Resize { pane_id: u64::MAX, size }), '\n'),
        (Command::CapturePane(CapturePane(0)), '\n'),
        (Command::SendKeys(SendKeys { keys: vec![0, 10, 13, 127, 255], pane: 2 }), '\r'),
    ] {
        let line = command.get_command();
        assert!(line.ends_with(end));
        assert!(line[..line.len() - 1].chars().all(|c| c == ' ' || c.is_ascii_graphic()));
    }
}

#[test]
fn listed_panes_are_brought_up_to_date() {
    let mut domain = domain_with_pane();
    let text = "$1 @3 %7 0 0 0 80 24 0 0 1\n$1 @3 %8 0 0 0 80 24 0 0 0\n$2 @3 %7 0 0 0 80 24 0 0 1\n";
    let done = ListAllPanes.process_result(Some(&mut domain), &reply(text));
    assert_eq!(done, Ok(vec![PaneSync { pane_id: 7, activate: Some((11, 70)) }]));
    assert_eq!(domain.next_command(), Some(Command::CapturePane(CapturePane(7))));
    assert_eq!(domain.next_command(), None);
}

#[test]
fn a_lost_domain_is_reported_after_the_list_is_read() {
    let text = reply("$1 @3 %7 0 0 0 80 24 0 0 1\n");
    assert_eq!(ListAllPanes.process_result(None, &text), Err(CommandError::DomainLost));
    assert_eq!(
        ListAllPanes.process_result(None, &reply("$1")),
        Err(CommandError::List(ListError::Missing(Field::WindowId)))
    );
    let windows = reply("$1 @3 80 24 1 abcd,80x24,0,0,7\n");
    assert!(matches!(
        ListAllWindows.process_result(None, &windows),
        Err(CommandError::DomainLost)
    ));
    assert_eq!(CapturePane(7).process_result(None, &reply("\\")), Err(CommandError::DomainLost));
    assert_eq!(CommandError::DomainLost.message(), "Tmux domain lost");
    assert_eq!(
        CommandError::List(ListError::Missing(Field::WindowId)).message(),
        "missing window_id"
    );
}

#[test]
fn a_rejected_list_leaves_the_domain_alone() {
    let mut domain = domain_with_pane();
    let text = "$1 @3 %7 0 0 0 80 24 0 0 1\n$1 @3\n";
    assert_eq!(
        ListAllPanes.process_result(Some(&mut domain), &reply(text)),
        Err(CommandError::List(ListError::Missing(Field::PaneId)))
    );
    assert_eq!(domain.next_command(), None);
}

#[test]
fn an_unreadable_list_is_told_from_a_rejected_one() {
    let bad = reply("1 @3 %7 0 0 0 80 24 0 0 1\n");
    assert_eq!(ListAllPanes.fault(&bad), None);
    let worse = reply(" @3 %7 0 0 0 80 24 0 0 1\n");
    assert_eq!(ListAllPanes.fault(&worse), Some(ListFault::NoMark));
    assert_eq!(ListAllPanes.try_process_result(None, &worse), Err(ListFault::NoMark));
    assert_eq!(ListAllPanes.try_process_result(None, &reply("")), Ok(Err(CommandError::DomainLost)));
    let mut domain = domain_with_pane();
    assert_eq!(ListAllPanes.try_process_result(Some(&mut domain), &reply("")), Ok(Ok(vec![])));
    let layout = reply("$1 @3 80 24 1 abcd,}\n");
    let stuck = ListFault::Layout(LayoutFault::Stuck);
    assert_eq!(ListAllWindows.fault(&layout), Some(stuck));
    assert!(matches!(ListAllWindows.try_process_result(None, &layout), Err(fault) if fault == stuck));
}

#[test]
fn listed_windows_begin_to_be_shown() {
    let domain = domain_with_pane();
    let text = reply("$1 @3 80 24 1 abcd,80x24,0,0,7\n");
    match ListAllWindows.process_result(Some(&domain), &text) {
        Ok((_, action)) => assert_eq!(action, SyncAction::OpenWindow),
        Err(error) => panic!("{error:?}"),
    }
    assert!(matches!(
        ListAllWindows.try_process_result(Some(&domain), &text),
        Ok(Ok((_, SyncAction::OpenWindow)))
    ));
}

#[test]
fn replies_to_the_other_commands_change_nothing() {
    let size = PtySize { rows: 1, cols: 2, pixel_width: 0, pixel_height: 0 };
    let error = Guarded { error: true, output: "no such pane".to_string() };
    assert_eq!(Resize { pane_id: 3, size }.process_result(&error), Ok(()));
    assert_eq!(SendKeys { keys: vec![1], pane: 2 }.process_result(&error), Ok(()));
}

#[test]
fn captured_text_is_unescaped_for_the_terminal() {
    let domain = domain_with_pane();
    for (text, shown) in [
        ("", ""),
        ("plain\n", "plain"),
        ("a\nb\n\n", "a\r\nb"),
        ("\\033[1mbold\\033[m\n", "\u{1b}[1mbold\u{1b}[m"),
        ("back\\\\slash\n", "back\\slash"),
        ("tab\\tand\\nline\n", "tab\tand\r\nline"),
        ("\\^A\n", "\u{1}"),
        ("\\303\\251\n", "é"),
        ("é\n", "é"),
    ] {
        assert_eq!(
            CapturePane(7).process_result(Some(&domain), &reply(text)),
            Ok(Some(shown.to_string())),
            "{text}"
        );
    }
}

#[test]
fn captured_text_is_dropped_where_the_pane_is_gone() {
    let domain = domain_with_pane();
    assert_eq!(CapturePane(8).process_result(Some(&domain), &reply("text\n")), Ok(None));
}

#[test]
fn text_that_is_not_escaped_properly_is_turned_down() {
    let domain = domain_with_pane();
    for (text, why) in [
        ("\\q\n", "Invalid \\ escape: 113".to_string()),
        ("\\Mx\n", "invalid \\M escape: 120".to_string()),
        ("\\377\n", format!(
            "Unescaped string is not valid UTF8: {}",
            String::from_utf8(vec![0xff]).unwrap_err()
        )),
    ] {
        for id in [7, 8] {
            let error = CapturePane(id).process_result(Some(&domain), &reply(text)).unwrap_err();
            assert_eq!(error.message(), "unescape pane content");
            assert_eq!(error, CommandError::Unescape(why.clone()));
        }
    }
}
