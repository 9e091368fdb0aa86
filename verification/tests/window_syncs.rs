use tmux_commands::commands::{Command, Guarded, ListAllPanes, ListAllWindows};
use tmux_commands::domain::{size_in_cells, PaneSync, TmuxDomainState};
use tmux_commands::listing::read_window_list;
use tmux_commands::window_sync::{
    session_title, tab_title, SplitDirection, SplitRequest, SyncAction, SyncError, SyncReply,
    WindowSync,
};
use tmux_commands::PaneItem;

/// A multiplexer with numbered tabs and panes. A tab holds its panes from left to right.
struct FakeMux {
    window: Option<usize>,
    window_has_tabs: bool,
    tabs: Vec<Vec<usize>>,
    in_window: Vec<usize>,
    next_pane: usize,
    splits_fail: bool,
    adding_fails: bool,
    actions: Vec<SyncAction>,
}

impl FakeMux {
    fn new() -> FakeMux {
        FakeMux {
            window: Some(5),
            window_has_tabs: true,
            tabs: Vec::new(),
            in_window: Vec::new(),
            next_pane: 100,
            splits_fail: false,
            adding_fails: false,
            actions: Vec::new(),
        }
    }

    fn perform(&mut self, action: SyncAction) -> Option<SyncReply> {
        self.actions.push(action);
        Some(match action {
            SyncAction::OpenWindow => SyncReply::Place(self.window),
            SyncAction::CreateTab { .. } => {
                self.tabs.push(Vec::new());
                SyncReply::Name(self.tabs.len() - 1)
            }
            SyncAction::CreatePane { .. } => {
                self.next_pane += 1;
                SyncReply::Name(self.next_pane)
            }
            SyncAction::AssignPane { tab_id, local_pane_id } => {
                self.tabs[tab_id] = vec![local_pane_id];
                SyncReply::Done
            }
            SyncAction::AddPane { .. } => SyncReply::Done,
            SyncAction::QueryActivePane { tab_id } => SyncReply::Flag(!self.tabs[tab_id].is_empty()),
            SyncAction::QueryActiveIndex { .. } => SyncReply::Name(0),
            SyncAction::SplitPane { tab_id, local_pane_id, index, .. } => {
                if self.splits_fail {
                    SyncReply::Place(None)
                } else {
                    self.tabs[tab_id].insert(index, local_pane_id);
                    SyncReply::Place(Some(index))
                }
            }
            SyncAction::FindPane { tab_id, local_pane_id } => {
                SyncReply::Place(self.tabs[tab_id].iter().position(|p| *p == local_pane_id))
            }
            SyncAction::AddTab { tab_id, .. } => {
                self.in_window.push(tab_id);
                SyncReply::Flag(!self.adding_fails)
            }
            SyncAction::ShowTitle { .. } => SyncReply::Flag(self.window_has_tabs),
            SyncAction::FindTab { tab_id, .. } => {
                SyncReply::Place(self.in_window.iter().position(|t| *t == tab_id))
            }
            SyncAction::ActivateTab { .. } => SyncReply::Done,
            SyncAction::Finish | SyncAction::Fail(_) | SyncAction::Abort => return None,
        })
    }

    fn run(&mut self, domain: &mut TmuxDomainState, text: &str) -> SyncAction {
        let windows = read_window_list(text).unwrap();
        let (mut sync, mut action): (WindowSync, SyncAction) = domain.sync_window_state(windows);
        while let Some(reply) = self.perform(action) {
            assert!(sync.expects(reply));
            action = sync.resume(domain, reply);
        }
        assert!(!sync.expects(SyncReply::Done));
        action
    }
}

fn pane_of(window_id: u64, pane_id: u64) -> PaneItem {
    PaneItem {
        session_id: 1,
        window_id,
        pane_id,
        _pane_index: 0,
        cursor_x: 0,
        cursor_y: 0,
        pane_width: 0,
        pane_height: 0,
        pane_left: 0,
        pane_top: 0,
        pane_active: true,
    }
}

const SPLIT_LINE: &str =
    "$1 @3 158 40 1 abcd,158x40,0,0{79x40,0,0[79x20,0,0,74,79x19,0,21,77],78x40,80,0,75}\n";

fn request(direction: SplitDirection, cells: usize) -> SplitRequest {
    SplitRequest { direction, target_is_second: false, top_level: false, cells }
}

#[test]
fn a_window_with_one_pane_is_shown() {
    let mut domain = TmuxDomainState::new(Some(1));
    let mut mux = FakeMux::new();
    let end = mux.run(&mut domain, "$1 @3 80 24 1 abcd,80x24,0,0,7\n");
    assert_eq!(end, SyncAction::Finish);
    assert_eq!(
        mux.actions,
        vec![
            SyncAction::OpenWindow,
            SyncAction::CreateTab { size: size_in_cells(80, 24), window_id: 3 },
            SyncAction::CreatePane { pane_id: 7, size: size_in_cells(80, 24) },
            SyncAction::AssignPane { tab_id: 0, local_pane_id: 101 },
            SyncAction::AddPane { local_pane_id: 101 },
            SyncAction::AddTab { tab_id: 0, gui_window: 5 },
            SyncAction::ShowTitle { gui_window: 5, session_id: 1 },
            SyncAction::FindTab { gui_window: 5, tab_id: 0 },
            SyncAction::ActivateTab { gui_window: 5, index: 0 },
            SyncAction::Finish,
        ]
    );
    assert!(domain.check_pane_attached(&pane_of(3, 7)));
    assert_eq!(domain.local_pane(7), Some(101));
    assert_eq!(domain.next_command(), Some(Command::ListAllPanes(ListAllPanes)));
    assert_eq!(domain.next_command(), None);
}

#[test]
fn a_divided_window_is_shown_from_the_outside_in() {
    let mut domain = TmuxDomainState::new(Some(1));
    let mut mux = FakeMux::new();
    let end = mux.run(&mut domain, SPLIT_LINE);
    assert_eq!(end, SyncAction::Finish);
    assert_eq!(
        mux.actions,
        vec![
            SyncAction::OpenWindow,
            SyncAction::CreateTab { size: size_in_cells(158, 40), window_id: 3 },
            // The whole window is the last pane at first.
            SyncAction::CreatePane { pane_id: 75, size: size_in_cells(158, 40) },
            SyncAction::AddPane { local_pane_id: 101 },
            SyncAction::QueryActivePane { tab_id: 0 },
            SyncAction::AssignPane { tab_id: 0, local_pane_id: 101 },
            SyncAction::QueryActiveIndex { tab_id: 0 },
            // The left column is split off it.
            SyncAction::CreatePane { pane_id: 77, size: size_in_cells(79, 40) },
            SyncAction::AddPane { local_pane_id: 102 },
            SyncAction::QueryActivePane { tab_id: 0 },
            SyncAction::SplitPane {
                tab_id: 0,
                local_pane_id: 102,
                index: 0,
                request: request(SplitDirection::Horizontal, 79),
            },
            // The column is there already; its upper pane is split off it.
            SyncAction::FindPane { tab_id: 0, local_pane_id: 102 },
            SyncAction::CreatePane { pane_id: 74, size: size_in_cells(79, 20) },
            SyncAction::AddPane { local_pane_id: 103 },
            SyncAction::QueryActivePane { tab_id: 0 },
            SyncAction::SplitPane {
                tab_id: 0,
                local_pane_id: 103,
                index: 0,
                request: request(SplitDirection::Vertical, 20),
            },
            SyncAction::AddTab { tab_id: 0, gui_window: 5 },
            SyncAction::ShowTitle { gui_window: 5, session_id: 1 },
            SyncAction::FindTab { gui_window: 5, tab_id: 0 },
            SyncAction::ActivateTab { gui_window: 5, index: 0 },
            SyncAction::Finish,
        ]
    );
    assert_eq!(mux.tabs, vec![vec![103, 102, 101]]);
    for id in [74, 75, 77] {
        assert!(domain.check_pane_attached(&pane_of(3, id)));
    }
    assert!(!domain.check_pane_attached(&pane_of(3, 76)));
    // Two steps of two panes each: at most five replies for each of them, two for the window, and
    // four more.
    let replies = mux.actions.len() - 1;
    assert!(replies <= 5 * 4 + 2 + 4);
}

#[test]
fn a_pane_is_split_off_behind_the_last_one() {
    let mut domain = TmuxDomainState::new(Some(1));
    let mut mux = FakeMux::new();
    mux.run(&mut domain, "$1 @3 9 9 0 abcd,9x9,0,0{3x9,0,0,1,2x9,4,0,2,2x9,7,0,3}\n");
    let places: Vec<usize> = mux
        .actions
        .iter()
        .filter_map(|a| match a {
            SyncAction::SplitPane { index, .. } => Some(*index),
            _ => None,
        })
        .collect();
    assert_eq!(places, vec![0, 1]);
    assert_eq!(mux.tabs, vec![vec![102, 103, 101]]);
}

#[test]
fn windows_of_other_sessions_are_passed_over() {
    let mut domain = TmuxDomainState::new(Some(1));
    let mut mux = FakeMux::new();
    let text = "$2 @1 9 9 1 abcd,9x9,0,0,1\n$1 @2 9 9 0 abcd,9x9,0,0,2\n$2 @3 9 9 1 abcd,9x9,0,0,3\n$1 @4 9 9 0 abcd,9x9,0,0,4\n";
    assert_eq!(mux.run(&mut domain, text), SyncAction::Finish);
    let made: Vec<u64> = mux
        .actions
        .iter()
        .filter_map(|a| match a {
            SyncAction::CreateTab { window_id, .. } => Some(*window_id),
            _ => None,
        })
        .collect();
    assert_eq!(made, vec![2, 4]);
    assert_eq!(mux.in_window, vec![0, 1]);
    assert!(domain.check_pane_attached(&pane_of(2, 2)));
    assert!(!domain.check_pane_attached(&pane_of(1, 1)));
    assert!(!domain.check_pane_attached(&pane_of(3, 3)));
    // No window of the session is active.
    assert!(!mux.actions.iter().any(|a| matches!(a, SyncAction::FindTab { .. })));
}

#[test]
fn windows_of_other_sessions_leave_no_trace() {
    let own = "$1 @2 9 9 1 abcd,9x9,0,0{4x9,0,0,20,4x9,5,0,21}\n";
    let more = "$1 @4 8 7 0 abcd,8x7,0,0,40\n";
    let other = "$2 @1 9 9 1 abcd,9x9,0,0,1\n$0 @9 3 3 1 abcd,3x3,0,0,9\n";
    let kept = format!("{own}{more}");
    let mut expected = FakeMux::new();
    let mut expected_domain = TmuxDomainState::new(Some(1));
    let end = expected.run(&mut expected_domain, &kept);
    assert_eq!(end, SyncAction::Finish);
    for text in [
        format!("{other}{own}{more}"),
        format!("{own}{other}{more}"),
        format!("{own}{more}{other}"),
        format!("{other}{own}{other}{more}{other}"),
    ] {
        let mut mux = FakeMux::new();
        let mut domain = TmuxDomainState::new(Some(1));
        assert_eq!(mux.run(&mut domain, &text), end);
        assert_eq!(mux.actions, expected.actions);
        for id in [1, 9, 20, 21, 40] {
            assert_eq!(domain.local_pane(id), expected_domain.local_pane(id));
        }
        assert!(!domain.check_pane_attached(&pane_of(1, 1)));
        assert_eq!(domain.next_command(), Some(Command::ListAllPanes(ListAllPanes)));
        assert_eq!(domain.next_command(), None);
    }
}

#[test]
fn each_window_has_a_tab_of_its_size_in_the_window() {
    let mut domain = TmuxDomainState::new(Some(1));
    let mut mux = FakeMux::new();
    let text = "$1 @2 80 24 0 abcd,80x24,0,0,2\n$2 @3 7 7 0 abcd,7x7,0,0,3\n$1 @4 40 12 0 abcd,40x12,0,0,4\n";
    assert_eq!(mux.run(&mut domain, text), SyncAction::Finish);
    let tabs: Vec<SyncAction> = mux
        .actions
        .iter()
        .filter(|a| matches!(a, SyncAction::CreateTab { .. } | SyncAction::AddTab { .. }))
        .copied()
        .collect();
    assert_eq!(
        tabs,
        vec![
            SyncAction::CreateTab { size: size_in_cells(80, 24), window_id: 2 },
            SyncAction::AddTab { tab_id: 0, gui_window: 5 },
            SyncAction::CreateTab { size: size_in_cells(40, 12), window_id: 4 },
            SyncAction::AddTab { tab_id: 1, gui_window: 5 },
        ]
    );
}

#[test]
fn each_pane_is_made_once_and_put_once() {
    let mut domain = TmuxDomainState::new(Some(1));
    let mut mux = FakeMux::new();
    let text = format!(
        "$1 @2 80 24 0 abcd,80x24,0,0,2\n{SPLIT_LINE}$1 @4 9 9 0 abcd,9x9,0,0[9x4,0,0,8,9x4,0,5,9]\n"
    );
    assert_eq!(mux.run(&mut domain, &text), SyncAction::Finish);
    let made: Vec<u64> = mux
        .actions
        .iter()
        .filter_map(|a| match a {
            SyncAction::CreatePane { pane_id, .. } => Some(*pane_id),
            _ => None,
        })
        .collect();
    assert_eq!(made, vec![2, 75, 77, 74, 9, 8]);
    for (tab, ids) in [(0, vec![2]), (1, vec![75, 77, 74]), (2, vec![9, 8])] {
        let put: Vec<(bool, usize)> = mux
            .actions
            .iter()
            .filter_map(|a| match a {
                SyncAction::AssignPane { tab_id, local_pane_id } if *tab_id == tab => {
                    Some((false, *local_pane_id))
                }
                SyncAction::SplitPane { tab_id, local_pane_id, .. } if *tab_id == tab => {
                    Some((true, *local_pane_id))
                }
                _ => None,
            })
            .collect();
        let expected: Vec<(bool, usize)> = ids
            .iter()
            .enumerate()
            .map(|(k, id)| (k > 0, domain.local_pane(*id).unwrap()))
            .collect();
        assert_eq!(put, expected);
    }
}

#[test]
fn the_title_is_that_of_the_session() {
    for (text, session_id) in [
        ("$1 @2 9 9 0 abcd,9x9,0,0,2\n", 1),
        ("$1 @2 9 9 0 abcd,9x9,0,0,2\n$2 @3 9 9 0 abcd,9x9,0,0,3\n", 1),
        ("$2 @3 9 9 1 abcd,9x9,0,0,3\n", 0),
    ] {
        let mut domain = TmuxDomainState::new(Some(1));
        let mut mux = FakeMux::new();
        assert_eq!(mux.run(&mut domain, text), SyncAction::Finish);
        assert!(mux.actions.contains(&SyncAction::ShowTitle { gui_window: 5, session_id }));
    }
}

#[test]
fn showing_the_same_again_is_given_up_unless_it_is_empty() {
    for (text, again) in [
        ("$1 @3 80 24 1 abcd,80x24,0,0,7\n", SyncAction::Fail(SyncError::AlreadyAttached)),
        (SPLIT_LINE, SyncAction::Fail(SyncError::InvalidPane(101))),
        ("$1 @3 80 24 1 abcd,\n", SyncAction::Finish),
    ] {
        let mut domain = TmuxDomainState::new(Some(1));
        let mut mux = FakeMux::new();
        assert_eq!(mux.run(&mut domain, text), SyncAction::Finish);
        assert_eq!(mux.run(&mut domain, text), again);
    }
}

#[test]
fn the_last_active_window_becomes_the_active_tab() {
    let mut domain = TmuxDomainState::new(Some(1));
    let mut mux = FakeMux::new();
    let text = "$1 @1 9 9 1 abcd,9x9,0,0,1\n$1 @2 9 9 1 abcd,9x9,0,0,2\n$1 @3 9 9 0 abcd,9x9,0,0,3\n";
    mux.run(&mut domain, text);
    assert!(mux.actions.contains(&SyncAction::ActivateTab { gui_window: 5, index: 1 }));
}

#[test]
fn without_windows_only_the_title_is_shown() {
    let mut domain = TmuxDomainState::new(Some(1));
    let mut mux = FakeMux::new();
    assert_eq!(mux.run(&mut domain, "\n"), SyncAction::Finish);
    assert_eq!(
        mux.actions,
        vec![
            SyncAction::OpenWindow,
            SyncAction::ShowTitle { gui_window: 5, session_id: 0 },
            SyncAction::Finish,
        ]
    );
    assert_eq!(domain.next_command(), Some(Command::ListAllPanes(ListAllPanes)));
}

#[test]
fn a_window_without_cells_gets_an_empty_tab() {
    let mut domain = TmuxDomainState::new(Some(1));
    let mut mux = FakeMux::new();
    assert_eq!(mux.run(&mut domain, "$1 @3 80 24 0 abcd,\n"), SyncAction::Finish);
    assert_eq!(mux.in_window, vec![0]);
    assert_eq!(mux.tabs, vec![Vec::<usize>::new()]);
}

#[test]
fn no_window_to_show_them_in_is_an_error() {
    let mut domain = TmuxDomainState::new(Some(1));
    let mut mux = FakeMux::new();
    mux.window = None;
    let end = mux.run(&mut domain, SPLIT_LINE);
    assert_eq!(end, SyncAction::Fail(SyncError::NoGui));
    assert_eq!(mux.actions.len(), 2);
    assert_eq!(domain.next_command(), None);
    assert_eq!(SyncError::NoGui.message(), "No tmux gui created");
}

#[test]
fn a_single_pane_that_is_shown_already_is_an_error() {
    let mut domain = TmuxDomainState::new(Some(1));
    let mut mux = FakeMux::new();
    let line = "$1 @3 80 24 1 abcd,80x24,0,0,7\n";
    mux.run(&mut domain, line);
    let before = mux.actions.len();
    let end = mux.run(&mut domain, line);
    assert_eq!(end, SyncAction::Fail(SyncError::AlreadyAttached));
    // The pane is made and assigned before that shows.
    assert_eq!(
        mux.actions[before..],
        [
            SyncAction::OpenWindow,
            SyncAction::CreateTab { size: size_in_cells(80, 24), window_id: 3 },
            SyncAction::CreatePane { pane_id: 7, size: size_in_cells(80, 24) },
            SyncAction::AssignPane { tab_id: 1, local_pane_id: 102 },
            SyncAction::Fail(SyncError::AlreadyAttached),
        ]
    );
    assert_eq!(SyncError::AlreadyAttached.message(), "Tmux pane already attached");
    assert_eq!(domain.local_pane(7), Some(102));
}

#[test]
fn a_shown_pane_that_is_not_in_the_tab_is_an_error() {
    let mut domain = TmuxDomainState::new(Some(1));
    let mut mux = FakeMux::new();
    mux.run(&mut domain, SPLIT_LINE);
    // The second time the panes are in the first tab.
    let end = mux.run(&mut domain, SPLIT_LINE);
    assert_eq!(end, SyncAction::Fail(SyncError::InvalidPane(101)));
    assert_eq!(SyncError::InvalidPane(101).message(), "invalid pane id 101");
}

#[test]
fn a_split_that_fails_ends_the_run() {
    let mut domain = TmuxDomainState::new(Some(1));
    let mut mux = FakeMux::new();
    mux.splits_fail = true;
    assert_eq!(mux.run(&mut domain, SPLIT_LINE), SyncAction::Abort);
    assert_eq!(domain.next_command(), None);
    // What was shown by then stays shown.
    assert!(domain.check_pane_attached(&pane_of(3, 77)));
    assert!(!domain.check_pane_attached(&pane_of(3, 74)));
}

#[test]
fn a_tab_that_cannot_be_added_ends_the_run() {
    let mut domain = TmuxDomainState::new(Some(1));
    let mut mux = FakeMux::new();
    mux.adding_fails = true;
    assert_eq!(mux.run(&mut domain, SPLIT_LINE), SyncAction::Abort);
    assert_eq!(mux.in_window, vec![0]);
}

#[test]
fn a_vanished_window_gets_no_title_and_no_active_tab() {
    let mut domain = TmuxDomainState::new(Some(1));
    let mut mux = FakeMux::new();
    mux.window_has_tabs = false;
    assert_eq!(mux.run(&mut domain, SPLIT_LINE), SyncAction::Finish);
    assert!(!mux.actions.iter().any(|a| matches!(a, SyncAction::FindTab { .. })));
    assert_eq!(domain.next_command(), Some(Command::ListAllPanes(ListAllPanes)));
}

#[test]
fn an_active_tab_that_is_not_in_the_window_is_an_error() {
    let mut domain = TmuxDomainState::new(Some(1));
    let windows = read_window_list("$1 @3 80 24 1 abcd,\n").unwrap();
    let (mut sync, action) = domain.sync_window_state(windows);
    assert_eq!(action, SyncAction::OpenWindow);
    sync.resume(&mut domain, SyncReply::Place(Some(5)));
    sync.resume(&mut domain, SyncReply::Name(9));
    sync.resume(&mut domain, SyncReply::Flag(true));
    let find = sync.resume(&mut domain, SyncReply::Flag(true));
    assert_eq!(find, SyncAction::FindTab { gui_window: 5, tab_id: 9 });
    let end = sync.resume(&mut domain, SyncReply::Place(None));
    let error = SyncError::TabNotInWindow { tab_id: 9, gui_window: 5 };
    assert_eq!(end, SyncAction::Fail(error));
    assert_eq!(error.message(), "tab 9 not in 5");
}

#[test]
fn replies_of_another_kind_are_not_expected() {
    let domain = TmuxDomainState::new(Some(1));
    let (sync, _) = domain.sync_window_state(Vec::new());
    assert!(sync.expects(SyncReply::Place(None)));
    assert!(!sync.expects(SyncReply::Done));
    assert!(!sync.expects(SyncReply::Name(1)));
    assert!(!sync.expects(SyncReply::Flag(true)));
}

#[test]
fn titles_name_what_is_shown() {
    assert_eq!(tab_title(12), "Tmux window: 12");
    assert_eq!(session_title(0), "Tmux Session: 0");
}

#[test]
fn the_panes_of_shown_windows_are_captured_when_listed() {
    let mut domain = TmuxDomainState::new(Some(1));
    let mut mux = FakeMux::new();
    let guarded = Guarded { error: false, output: SPLIT_LINE.to_string() };
    let (mut sync, mut action) = match ListAllWindows.process_result(Some(&domain), &guarded) {
        Ok(begun) => begun,
        Err(error) => panic!("{error:?}"),
    };
    while let Some(reply) = mux.perform(action) {
        action = sync.resume(&mut domain, reply);
    }
    assert_eq!(action, SyncAction::Finish);
    let syncs = domain.sync_pane_state(&[pane_of(3, 74), pane_of(3, 75), pane_of(3, 76)]);
    assert_eq!(
        syncs,
        vec![
            PaneSync { pane_id: 74, activate: Some((0, 103)) },
            PaneSync { pane_id: 75, activate: Some((0, 101)) },
        ]
    );
}
