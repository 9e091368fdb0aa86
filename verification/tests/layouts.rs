use fancy_regex::Regex;
use tmux_commands::layout::{
    parse_layout, parse_pane, pane_readable, try_parse_layout, try_parse_pane, LayoutEnd, LayoutError,
    LayoutFault,
};
use tmux_commands::{PaneItem, TmuxLayout};

fn cell(pane_id: u64, pane_width: u64, pane_height: u64, pane_left: u64, pane_top: u64) -> PaneItem {
    PaneItem {
        session_id: 0,
        window_id: 0,
        pane_id,
        _pane_index: 0,
        cursor_x: 0,
        cursor_y: 0,
        pane_width,
        pane_height,
        pane_left,
        pane_top,
        pane_active: false,
    }
}

fn read_all(text: &str) -> (LayoutEnd, Vec<TmuxLayout>) {
    let mut layouts = Vec::new();
    let end = try_parse_layout(text, &mut layouts, None);
    (end, layouts)
}

#[test]
fn a_window_with_one_pane() {
    let mut layouts = Vec::new();
    let len = parse_layout("158x40,0,0,72", &mut layouts, None);
    assert_eq!(len, Ok(13));
    assert_eq!(layouts, vec![TmuxLayout::SinglePane(cell(72, 158, 40, 0, 0))]);
}

#[test]
fn a_window_divided_top_down() {
    let text = "158x40,0,0[158x20,0,0,69,158x19,0,21{79x19,0,21,70,78x19,80,21[78x9,80,21,71,78x9,80,31,73]}]";
    let mut layouts = Vec::new();
    assert_eq!(parse_layout(text, &mut layouts, None), Ok(0));
    assert_eq!(
        layouts,
        vec![
            TmuxLayout::SplitVertical(vec![cell(73, 158, 40, 0, 0), cell(69, 158, 20, 0, 0)]),
            TmuxLayout::SplitHorizontal(vec![cell(73, 158, 19, 0, 21), cell(70, 79, 19, 0, 21)]),
            TmuxLayout::SplitVertical(vec![cell(73, 78, 19, 80, 21), cell(71, 78, 9, 80, 21)]),
        ]
    );
}

#[test]
fn a_window_divided_side_by_side() {
    let text = "158x40,0,0{79x40,0,0[79x20,0,0,74,79x19,0,21{39x19,0,21,76,39x19,40,21,77}],78x40,80,0,75}";
    let mut layouts = Vec::new();
    assert_eq!(parse_layout(text, &mut layouts, None), Ok(0));
    assert_eq!(
        layouts,
        vec![
            TmuxLayout::SplitHorizontal(vec![cell(75, 158, 40, 0, 0), cell(77, 79, 40, 0, 0)]),
            TmuxLayout::SplitVertical(vec![cell(77, 79, 40, 0, 0), cell(74, 79, 20, 0, 0)]),
            TmuxLayout::SplitHorizontal(vec![cell(77, 79, 19, 0, 21), cell(76, 39, 19, 0, 21)]),
        ]
    );
}

#[test]
fn divided_cells_side_by_side_come_last_one_first() {
    let text = "9x9,0,0{4x9,0,0[4x4,0,0,1,4x4,0,5,2],4x9,5,0[4x4,5,0,3,4x4,5,5,4]}";
    let (end, layouts) = read_all(text);
    assert_eq!(end, LayoutEnd::Done(0));
    assert_eq!(
        layouts,
        vec![
            TmuxLayout::SplitHorizontal(vec![cell(4, 9, 9, 0, 0), cell(2, 4, 9, 0, 0)]),
            TmuxLayout::SplitVertical(vec![cell(4, 4, 9, 5, 0), cell(3, 4, 4, 5, 0)]),
            TmuxLayout::SplitVertical(vec![cell(2, 4, 9, 0, 0), cell(1, 4, 4, 0, 0)]),
        ]
    );
}

#[test]
fn every_pane_is_named_and_no_other() {
    let text = "158x40,0,0[158x20,0,0,69,158x19,0,21{79x19,0,21,70,78x19,80,21[78x9,80,21,71,78x9,80,31,73]}]";
    let (_, layouts) = read_all(text);
    let mut ids: Vec<u64> = Vec::new();
    for layout in &layouts {
        match layout {
            TmuxLayout::SinglePane(p) => ids.push(p.pane_id),
            TmuxLayout::SplitHorizontal(panes) | TmuxLayout::SplitVertical(panes) => {
                ids.extend(panes.iter().map(|p| p.pane_id))
            }
        }
    }
    ids.sort();
    ids.dedup();
    assert_eq!(ids, vec![69, 70, 71, 73]);
}

#[test]
fn steps_go_before_and_a_single_pane_behind_what_is_there() {
    let there = || TmuxLayout::SplitVertical(vec![cell(8, 1, 2, 0, 0), cell(9, 1, 1, 0, 0)]);
    let mut layouts = vec![there()];
    assert_eq!(parse_layout("9x9,0,0{4x9,0,0,1,4x9,5,0,2}", &mut layouts, None), Ok(0));
    let row = TmuxLayout::SplitHorizontal(vec![cell(2, 9, 9, 0, 0), cell(1, 4, 9, 0, 0)]);
    assert_eq!(layouts, vec![row, there()]);
    let mut layouts = vec![there()];
    assert_eq!(parse_layout("9x9,0,0,3", &mut layouts, None), Ok(9));
    assert_eq!(layouts, vec![there(), TmuxLayout::SinglePane(cell(3, 9, 9, 0, 0))]);
}

#[test]
fn each_step_divides_a_pane_of_an_earlier_one() {
    for (text, panes, divided) in [
        ("9x9,0,0{4x9,0,0[4x4,0,0,1,4x4,0,5,2],4x9,5,0[4x4,5,0,3,4x4,5,5,4]}", 4, 3),
        ("158x40,0,0[158x20,0,0,69,158x19,0,21{79x19,0,21,70,78x19,80,21[78x9,80,21,71,78x9,80,31,73]}]", 4, 3),
        ("9x9,0,0{1x9,0,0,1,1x9,2,0,2,1x9,4,0,3}", 3, 1),
    ] {
        let (_, layouts) = read_all(text);
        let mut made: Vec<u64> = Vec::new();
        let mut listed = 0;
        for (k, layout) in layouts.iter().enumerate() {
            let ids: Vec<u64> = match layout {
                TmuxLayout::SinglePane(p) => vec![p.pane_id],
                TmuxLayout::SplitHorizontal(v) | TmuxLayout::SplitVertical(v) => {
                    v.iter().map(|p| p.pane_id).collect()
                }
            };
            assert!(k == 0 || made.contains(&ids[0]), "{text}");
            listed += ids.len();
            made.extend(ids);
        }
        assert_eq!(layouts.len(), divided);
        assert_eq!(listed + 1, panes + divided);
    }
}

#[test]
fn reading_goes_on_inside_a_given_cell() {
    let mut layouts = Vec::new();
    let stack = Some(vec![cell(0, 9, 9, 0, 0)]);
    assert_eq!(parse_layout("4x9,0,0,1,4x9,5,0,2}rest", &mut layouts, stack), Ok(20));
    assert_eq!(
        layouts,
        vec![TmuxLayout::SplitHorizontal(vec![cell(2, 9, 9, 0, 0), cell(1, 4, 9, 0, 0)])]
    );
}

#[test]
fn what_follows_an_outer_pane_is_left_alone() {
    assert_eq!(
        read_all(",10x20,3,4,5,junk"),
        (LayoutEnd::Done(12), vec![TmuxLayout::SinglePane(cell(5, 10, 20, 3, 4))])
    );
    assert_eq!(
        read_all("10x10,0,0,1é"),
        (LayoutEnd::Done(11), vec![TmuxLayout::SinglePane(cell(1, 10, 10, 0, 0))])
    );
}

#[test]
fn a_bar_opens_a_cell_like_a_brace() {
    let (end, layouts) = read_all("9x9,0,0|4x9,0,0,1,4x9,5,0,2]");
    assert_eq!(end, LayoutEnd::Done(0));
    assert_eq!(
        layouts,
        vec![TmuxLayout::SplitVertical(vec![cell(2, 9, 9, 0, 0), cell(1, 4, 9, 0, 0)])]
    );
}

#[test]
fn a_cell_may_be_closed_by_the_other_mark() {
    let (end, layouts) = read_all("9x9,0,0{4x9,0,0,1,4x9,5,0,2]");
    assert_eq!(end, LayoutEnd::Done(0));
    assert!(matches!(layouts[0], TmuxLayout::SplitVertical(_)));
}

#[test]
fn no_text_is_no_layout() {
    assert_eq!(read_all(""), (LayoutEnd::Done(0), vec![]));
}

#[test]
fn an_unclosed_cell_is_read_again_from_outside() {
    assert_eq!(
        read_all("9x9,0,0{4x9,0,0,1"),
        (LayoutEnd::Done(17), vec![TmuxLayout::SinglePane(cell(1, 4, 9, 0, 0))])
    );
}

#[test]
fn a_divided_cell_after_a_single_pane_is_not_right() {
    let mut layouts = vec![TmuxLayout::SinglePane(cell(1, 9, 9, 0, 0))];
    let stack = Some(vec![cell(0, 9, 9, 0, 0)]);
    let end = parse_layout("4x9,0,0{", &mut layouts, stack);
    assert_eq!(end, Err(LayoutError::NotRight));
    assert_eq!(LayoutError::NotRight.message(), "The tmux layout is not right");
}

#[test]
fn each_layout_fault_has_its_input() {
    for (text, fault) in [
        ("18446744073709551616x1,0,0,1", LayoutFault::Number),
        ("1x1,0,0,18446744073709551616", LayoutFault::Number),
        ("10x10,0,0,1\u{663}", LayoutFault::Number),
        ("\u{663}x10,0,0{", LayoutFault::Number),
        ("9x9,0,0{}", LayoutFault::EmptySplit),
        ("9x9,0,0[]", LayoutFault::EmptySplit),
        ("9x9,0,0{4x9,0,0{", LayoutFault::UnclosedSplit),
        ("}", LayoutFault::Stuck),
        ("]", LayoutFault::Stuck),
        ("x", LayoutFault::Stuck),
        ("9x9,0,0", LayoutFault::Stuck),
        ("9x9,0,0{1x1,0,0,1,é", LayoutFault::Stuck),
        (",,9x9,0,0,1", LayoutFault::Stuck),
    ] {
        assert_eq!(read_all(text).0, LayoutEnd::Fault(fault), "{text}");
    }
}

#[test]
fn a_pane_is_read_with_or_without_its_number() {
    assert_eq!(parse_pane("80x24,1,2,3"), Ok(cell(3, 80, 24, 1, 2)));
    assert_eq!(parse_pane(",80x24,1,2"), Ok(cell(0, 80, 24, 1, 2)));
    assert_eq!(parse_pane("80x24,1,2,x"), Ok(cell(0, 80, 24, 1, 2)));
    assert_eq!(parse_pane("80x24,1"), Err(LayoutError::WrongPaneFormat));
    assert_eq!(LayoutError::WrongPaneFormat.message(), "Wrong pane layout format");
    assert!(pane_readable("80x24,1"));
    assert!(!pane_readable("80x24,1,\u{662}"));
    assert_eq!(try_parse_pane("80x24,1,\u{662}"), None);
    assert_eq!(try_parse_pane("80x24,1,2,18446744073709551616"), None);
}

#[test]
fn cells_are_found_where_the_patterns_find_them() {
    let pane = Regex::new(r"^,?(\d+)x(\d+),(\d+),(\d+)(,(\d+))?").unwrap();
    let parts = ["", ",", "1", "20", "x", "0", "\u{663}", "+", "é"];
    let frames = [
        "{}1x2,3,4", "1{}x2,3,4,5", "1x{}2,3,4,5", "1x2{},3,4,5", "1x2,{}3,4,5", "1x2,3{},4,5",
        "1x2,3,{}4,5", "1x2,3,4{},5", "1x2,3,4,{}5", "1x2,3,4,5{}", "1x2,3,4,{}", "1x2,3,{}",
    ];
    for frame in frames {
        for part in parts {
            let text = frame.replace("{}", part);
            let read = try_parse_pane(&text);
            match pane.captures(&text).unwrap() {
                None => assert_eq!(read, Some(Err(LayoutError::WrongPaneFormat)), "{text}"),
                Some(caps) => {
                    let number = |i: usize| match caps.get(i) {
                        Some(m) => m.as_str().parse::<u64>().ok(),
                        None => Some(0),
                    };
                    match (number(1), number(2), number(3), number(4), number(6)) {
                        (Some(w), Some(h), Some(l), Some(t), Some(id)) => {
                            assert_eq!(read, Some(Ok(cell(id, w, h, l, t))), "{text}")
                        }
                        _ => assert_eq!(read, None, "{text}"),
                    }
                }
            }
        }
    }
}

#[test]
fn panes_and_divided_cells_are_told_apart_as_the_patterns_tell_them() {
    let re_pane = Regex::new(r"^,?(\d+x\d+,\d+,\d+,\d+)").unwrap();
    let re_split_push = Regex::new(r"^,?(\d+x\d+,\d+,\d+)[\{|\[]").unwrap();
    for text in [
        "1x2,3,4,5", ",1x2,3,4,5", "1x2,3,4{", "1x2,3,4[", "1x2,3,4|", "1x2,3,4}", "1x2,3,4]",
        "1x2,3,4", "1x2,3,4,", "1x2,3,4,{", "1x2,3,4,5{", ",,1x2,3,4,5", "1x2,3,4,5,6", "x", "{",
        "1x2,3,4(", "1x2,3,4\\",
    ] {
        let (end, layouts) = read_all(text);
        let push = re_split_push.captures(text).unwrap();
        let pane = re_pane.captures(text).unwrap();
        if push.is_some() {
            assert_eq!((end, layouts.len()), (LayoutEnd::Done(0), 0), "{text}");
        } else if let Some(caps) = pane {
            let len = caps.get(0).unwrap().as_str().len();
            assert_eq!((end, layouts.len()), (LayoutEnd::Done(len), 1), "{text}");
        } else {
            assert_eq!(end, LayoutEnd::Fault(LayoutFault::Stuck), "{text}");
        }
    }
}
