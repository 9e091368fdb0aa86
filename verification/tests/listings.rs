use tmux_commands::layout::{LayoutError, LayoutFault};
use tmux_commands::listing::{
    read_pane_list, read_window_list, Field, ListError, ListFault, ListTrouble,
};
use tmux_commands::{NumberError, PaneItem, TmuxLayout, WindowItem};

fn listed_pane() -> PaneItem {
    PaneItem {
        session_id: 1,
        window_id: 2,
        pane_id: 3,
        _pane_index: 4,
        cursor_x: 5,
        cursor_y: 6,
        pane_width: 80,
        pane_height: 24,
        pane_left: 7,
        pane_top: 8,
        pane_active: true,
    }
}

fn pane_trouble_of(text: &str) -> ListTrouble {
    read_pane_list(text).unwrap_err()
}

fn window_trouble_of(text: &str) -> ListTrouble {
    read_window_list(text).unwrap_err()
}

fn rejected(error: ListError) -> ListTrouble {
    ListTrouble::Rejected(error)
}

#[test]
fn panes_are_read_line_by_line() {
    let other = PaneItem { pane_id: 9, pane_active: false, ..listed_pane() };
    assert_eq!(
        read_pane_list("$1 @2 %3 4 5 6 80 24 7 8 1\n$1 @2 %9 4 5 6 80 24 7 8 0\n"),
        Ok(vec![listed_pane(), other])
    );
}

#[test]
fn empty_lines_are_left_out() {
    assert_eq!(read_pane_list(""), Ok(vec![]));
    assert_eq!(read_pane_list("\n\n"), Ok(vec![]));
    assert_eq!(read_pane_list("\n$1 @2 %3 4 5 6 80 24 7 8 1\n\n"), Ok(vec![listed_pane()]));
    assert_eq!(read_window_list("\n"), Ok(vec![]));
}

#[test]
fn more_fields_than_asked_for_are_left_alone() {
    assert_eq!(read_pane_list("$1 @2 %3 4 5 6 80 24 7 8 1 x y"), Ok(vec![listed_pane()]));
}

#[test]
fn a_flag_is_set_only_by_one() {
    for (flag, active) in [("1", true), ("0", false), ("2", false), ("01", true), ("+1", true)] {
        let text = format!("$1 @2 %3 4 5 6 80 24 7 8 {flag}");
        assert_eq!(read_pane_list(&text).unwrap()[0].pane_active, active);
    }
}

#[test]
fn any_mark_of_one_byte_will_do() {
    assert_eq!(read_pane_list("x1 y2 z3 4 5 6 80 24 7 8 1"), Ok(vec![listed_pane()]));
}

#[test]
fn each_missing_pane_field_is_named() {
    let fields = ["$1", "@2", "%3", "4", "5", "6", "80", "24", "7", "8", "1"];
    let names = [
        Field::SessionId,
        Field::WindowId,
        Field::PaneId,
        Field::PaneIndex,
        Field::CursorX,
        Field::CursorY,
        Field::PaneWidth,
        Field::PaneHeight,
        Field::PaneLeft,
        Field::PaneTop,
        Field::PaneActive,
    ];
    let words = [
        "session_id", "window_id", "pane_id", "pane_index", "cursor_x", "cursor_y", "pane_width",
        "pane_height", "pane_left", "pane_top", "pane_active",
    ];
    for n in 1..fields.len() {
        let error = ListError::Missing(names[n]);
        assert_eq!(pane_trouble_of(&fields[..n].join(" ")), rejected(error));
        assert_eq!(error.message(), format!("missing {}", words[n]));
    }
    assert_eq!(ListError::Missing(names[0]).message(), "missing session_id");
}

#[test]
fn each_missing_window_field_is_named() {
    let fields = ["$1", "@2", "80", "24", "1", "abcd,80x24,0,0,3"];
    let names = [
        Field::SessionId,
        Field::WindowId,
        Field::WindowWidth,
        Field::WindowHeight,
        Field::WindowActive,
        Field::WindowLayout,
    ];
    let words = [
        "session_id", "window_id", "window_width", "window_height", "window_active",
        "window_layout",
    ];
    for n in 1..fields.len() {
        let error = ListError::Missing(names[n]);
        assert_eq!(window_trouble_of(&fields[..n].join(" ")), rejected(error));
        assert_eq!(error.message(), format!("missing {}", words[n]));
    }
}

#[test]
fn a_field_that_is_no_number_is_turned_down() {
    let line = "$1 @2 %3 4 5 6 80 24 7 8 1";
    let fields: Vec<&str> = line.split(' ').collect();
    for n in 3..fields.len() {
        for (text, error) in [
            ("", NumberError::Empty),
            ("x", NumberError::InvalidDigit),
            ("99999999999999999999", NumberError::PosOverflow),
        ] {
            let mut changed = fields.clone();
            changed[n] = text;
            assert_eq!(pane_trouble_of(&changed.join(" ")), rejected(ListError::Number(error)));
        }
    }
    for n in 0..3 {
        let mut changed = fields.clone();
        changed[n] = "$";
        let empty = rejected(ListError::Number(NumberError::Empty));
        assert_eq!(pane_trouble_of(&changed.join(" ")), empty);
    }
}

#[test]
fn the_first_trouble_decides() {
    // The numbers come before the marks, and the first line before the second.
    assert_eq!(
        pane_trouble_of(" @2 %3 4 5 6 80 24 7 8 x"),
        rejected(ListError::Number(NumberError::InvalidDigit))
    );
    assert_eq!(
        pane_trouble_of(" @2 %3 4 5 6 80 24 7 8 1\n$1"),
        ListTrouble::Fault(ListFault::NoMark)
    );
    assert_eq!(
        pane_trouble_of("$1\n @2 %3 4 5 6 80 24 7 8 1"),
        rejected(ListError::Missing(Field::WindowId))
    );
}

#[test]
fn an_id_needs_a_mark_of_one_byte() {
    assert_eq!(
        pane_trouble_of("$1  %3 4 5 6 80 24 7 8 1"),
        ListTrouble::Fault(ListFault::NoMark)
    );
    assert_eq!(
        pane_trouble_of("é1 @2 %3 4 5 6 80 24 7 8 1"),
        ListTrouble::Fault(ListFault::NoMark)
    );
}

#[test]
fn windows_are_read_with_their_layout() {
    let windows = read_window_list("$1 @2 80 24 1 b25d,80x24,0,0,3\n$1 @5 9 9 0 0000,9x9,0,0{4x9,0,0,1,4x9,5,0,2}\n")
        .unwrap();
    let bare = PaneItem {
        session_id: 1,
        window_id: 2,
        pane_id: 3,
        _pane_index: 0,
        cursor_x: 0,
        cursor_y: 0,
        pane_width: 80,
        pane_height: 24,
        pane_left: 0,
        pane_top: 0,
        pane_active: false,
    };
    let whole = PaneItem { window_id: 5, pane_id: 2, pane_width: 9, pane_height: 9, ..bare };
    let left = PaneItem { window_id: 5, pane_id: 1, pane_width: 4, pane_height: 9, ..bare };
    assert_eq!(
        windows,
        vec![
            WindowItem {
                session_id: 1,
                window_id: 2,
                window_width: 80,
                window_height: 24,
                window_active: true,
                layout: vec![TmuxLayout::SinglePane(bare)],
            },
            WindowItem {
                session_id: 1,
                window_id: 5,
                window_width: 9,
                window_height: 9,
                window_active: false,
                layout: vec![TmuxLayout::SplitHorizontal(vec![whole, left])],
            },
        ]
    );
}

#[test]
fn a_layout_needs_its_checksum() {
    for text in ["", "b25d", "b25", "b25dé80x24,0,0,3"] {
        assert_eq!(
            window_trouble_of(&format!("$1 @2 80 24 1 {text}")),
            ListTrouble::Fault(ListFault::NoChecksum)
        );
    }
}

#[test]
fn a_layout_that_cannot_be_read_is_reported() {
    assert_eq!(
        window_trouble_of("$1 @2 80 24 1 b25d,junk"),
        ListTrouble::Fault(ListFault::Layout(LayoutFault::Stuck))
    );
    assert_eq!(
        ListError::Layout(LayoutError::NotRight).message(),
        "The tmux layout is not right"
    );
}

#[test]
fn only_the_last_step_can_be_a_single_pane() {
    for text in [
        "80x24,0,0,3",
        "9x9,0,0{4x9,0,0,1,4x9,5,0,2}",
        "9x9,0,0{4x9,0,0,1,4x9,5,0,2},9x9,0,0,3",
        "9x9,0,0{4x9,0,0[4x4,0,0,1,4x4,0,5,2],4x9,5,0,3",
    ] {
        let windows = read_window_list(&format!("$1 @2 9 9 0 abcd,{text}")).unwrap();
        let layout = &windows[0].layout;
        for (k, step) in layout.iter().enumerate() {
            let panes: Vec<&PaneItem> = match step {
                TmuxLayout::SinglePane(pane) => {
                    assert_eq!(k, layout.len() - 1, "{text}");
                    vec![pane]
                }
                TmuxLayout::SplitHorizontal(panes) | TmuxLayout::SplitVertical(panes) => {
                    panes.iter().collect()
                }
            };
            assert!(panes.iter().all(|pane| pane.window_id == 2));
        }
    }
}

#[test]
fn a_layout_may_be_empty() {
    assert_eq!(read_window_list("$1 @2 80 24 1 b25d,").unwrap()[0].layout, vec![]);
}

#[test]
fn written_panes_read_back() {
    let panes = vec![
        listed_pane(),
        PaneItem { session_id: 0, pane_id: u64::MAX, pane_active: false, ..listed_pane() },
    ];
    let mut text = String::new();
    for p in &panes {
        text += &format!(
            "${} @{} %{} {} {} {} {} {} {} {} {}\n",
            p.session_id,
            p.window_id,
            p.pane_id,
            p._pane_index,
            p.cursor_x,
            p.cursor_y,
            p.pane_width,
            p.pane_height,
            p.pane_left,
            p.pane_top,
            p.pane_active as u8
        );
    }
    assert_eq!(read_pane_list(&text), Ok(panes));
}
