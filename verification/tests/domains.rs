use tmux_commands::commands::{CapturePane, Command, ListAllPanes};
use tmux_commands::domain::{
    size_in_cells, AttachError, PaneSync, TerminalSize, TmuxDomainState,
};
use tmux_commands::{PaneItem, TmuxLayout, WindowItem};

fn known_pane(window_id: u64, pane_id: u64) -> PaneItem {
    PaneItem {
        session_id: 1,
        window_id,
        pane_id,
        _pane_index: 0,
        cursor_x: 1,
        cursor_y: 2,
        pane_width: 80,
        pane_height: 24,
        pane_left: 3,
        pane_top: 4,
        pane_active: false,
    }
}

fn known_window(window_id: u64) -> WindowItem {
    WindowItem {
        session_id: 1,
        window_id,
        window_width: 80,
        window_height: 24,
        window_active: false,
        layout: vec![TmuxLayout::SinglePane(known_pane(window_id, 0))],
    }
}

fn show(domain: &mut TmuxDomainState, window_id: u64, pane_id: u64, tab: usize, local: usize) {
    let pane = known_pane(window_id, pane_id);
    domain.create_pane(&known_window(window_id), &pane, local);
    domain.add_attached_pane(&pane, &tab).unwrap();
}

#[test]
fn a_pane_is_attached_once() {
    let mut domain = TmuxDomainState::new(None);
    let pane = known_pane(3, 7);
    assert!(!domain.check_pane_attached(&pane));
    assert_eq!(domain.add_attached_pane(&pane, &11), Ok(()));
    assert!(domain.check_pane_attached(&pane));
    assert_eq!(domain.add_attached_pane(&pane, &11), Err(AttachError::AlreadyAttached));
    assert_eq!(AttachError::AlreadyAttached.message(), "Tmux pane already attached");
    assert!(domain.check_pane_attached(&pane));
}

#[test]
fn attaching_a_pane_shows_that_one_and_hides_none() {
    let mut domain = TmuxDomainState::new(None);
    domain.add_attached_pane(&known_pane(3, 7), &11).unwrap();
    domain.add_attached_pane(&known_pane(3, 8), &12).unwrap();
    domain.add_attached_pane(&known_pane(4, 9), &13).unwrap();
    for (window, pane, shown) in
        [(3, 7, true), (3, 8, true), (4, 9, true), (3, 9, false), (4, 7, false), (5, 7, false)]
    {
        assert_eq!(domain.check_pane_attached(&known_pane(window, pane)), shown);
    }
}

#[test]
fn a_window_keeps_its_first_tab() {
    let mut domain = TmuxDomainState::new(Some(1));
    show(&mut domain, 3, 7, 11, 70);
    show(&mut domain, 3, 8, 12, 80);
    let active = PaneItem { pane_active: true, ..known_pane(3, 8) };
    assert_eq!(
        domain.sync_pane_state(&[active]),
        vec![PaneSync { pane_id: 8, activate: Some((11, 80)) }]
    );
}

#[test]
fn a_pane_is_made_as_large_as_tmux_says() {
    let mut domain = TmuxDomainState::new(None);
    let size = domain.create_pane(&known_window(3), &known_pane(3, 7), 70);
    let expected =
        TerminalSize { rows: 24, cols: 80, pixel_width: 0, pixel_height: 0, dpi: 0 };
    assert_eq!(size, expected);
    assert_eq!(size_in_cells(80, 24), expected);
    assert!(domain.has_remote_pane(7));
    assert!(!domain.has_remote_pane(70));
    assert_eq!(domain.local_pane(7), Some(70));
    assert_eq!(domain.local_pane(8), None);
}

#[test]
fn a_pane_that_is_made_anew_replaces_the_old_one() {
    let mut domain = TmuxDomainState::new(None);
    domain.create_pane(&known_window(3), &known_pane(3, 7), 70);
    domain.create_pane(&known_window(3), &known_pane(3, 7), 71);
    assert_eq!(domain.local_pane(7), Some(71));
}

#[test]
fn only_shown_panes_of_the_session_are_captured() {
    let mut domain = TmuxDomainState::new(Some(1));
    show(&mut domain, 3, 7, 11, 70);
    show(&mut domain, 3, 8, 11, 80);
    let foreign = PaneItem { session_id: 2, ..known_pane(3, 7) };
    let hidden = known_pane(3, 9);
    let elsewhere = known_pane(4, 7);
    let panes = [foreign, known_pane(3, 8), hidden, elsewhere, known_pane(3, 7), known_pane(3, 8)];
    let syncs = domain.sync_pane_state(&panes);
    let ids: Vec<u64> = syncs.iter().map(|s| s.pane_id).collect();
    assert_eq!(ids, vec![8, 7, 8]);
    assert!(syncs.iter().all(|s| s.activate.is_none()));
    for id in [8, 7, 8] {
        assert_eq!(domain.next_command(), Some(Command::CapturePane(CapturePane(id))));
    }
    assert_eq!(domain.next_command(), None);
}

#[test]
fn without_a_session_that_is_session_zero() {
    let mut domain = TmuxDomainState::new(None);
    assert_eq!(domain.current_session(), 0);
    show(&mut domain, 3, 7, 11, 70);
    let listed = known_pane(3, 7);
    assert_eq!(domain.sync_pane_state(&[listed]), vec![]);
    let zero = PaneItem { session_id: 0, ..listed };
    assert_eq!(domain.sync_pane_state(&[zero]).len(), 1);
    domain.set_session(Some(1));
    assert_eq!(domain.current_session(), 1);
    assert_eq!(domain.sync_pane_state(&[listed, zero]).len(), 1);
}

#[test]
fn commands_wait_in_line() {
    let mut domain = TmuxDomainState::new(None);
    domain.queue_command(Command::ListAllPanes(ListAllPanes));
    domain.queue_command(Command::CapturePane(CapturePane(5)));
    assert_eq!(domain.next_command(), Some(Command::ListAllPanes(ListAllPanes)));
    assert_eq!(domain.next_command(), Some(Command::CapturePane(CapturePane(5))));
    assert_eq!(domain.next_command(), None);
}
