//! The commands that are sent to tmux, and what is made of their replies.

use crate::capture::{terminal_text, trim_line_ends, trimmed, unescape, unescaped, with_returns};
use crate::domain::{PaneSync, TmuxDomainState};
use crate::items::TmuxPaneId;
use crate::listing::{
    pane_list, read_pane_list, read_window_list, window_list, ListError, ListFault, ListTrouble,
};
use crate::text::{decimal, hex, push_decimal, push_hex};
use crate::window_sync::{start, SyncAction, WindowSync};
use vstd::prelude::*;

verus! {

/// A reply of tmux: whether it reports an error, and its text.
#[derive(Debug, PartialEq, Eq)]
pub struct Guarded {
    pub error: bool,
    pub output: String,
}

/// The size of a terminal, in cells and in pixels.
#[derive(Debug, Clone, Copy, PartialEq, Eq, Structural)]
pub struct PtySize {
    pub rows: u16,
    pub cols: u16,
    pub pixel_width: u16,
    pub pixel_height: u16,
}

/// A command that can be sent to tmux.
pub trait TmuxCommand {
    /// The line that is sent.
    spec fn words(&self) -> Seq<char>;

    /// The line that is sent.
    fn get_command(&self) -> (line: String)
        ensures
            line@ == self.words(),
    ;
}

/// Why the reply to a command is turned down.
#[derive(Debug, PartialEq, Eq)]
pub enum CommandError {
    /// The list in the reply is turned down.
    List(ListError),
    /// The tmux domain that the command was sent for is gone.
    DomainLost,
    /// The text in the reply is not escaped as it should be, for the reason given.
    Unescape(String),
}

impl CommandError {
    pub open spec fn words(self) -> Seq<char> {
        match self {
            CommandError::List(error) => error.words(),
            CommandError::DomainLost => "Tmux domain lost"@,
            CommandError::Unescape(_) => "unescape pane content"@,
        }
    }

    /// The error in words, without its cause.
    pub fn message(&self) -> (words: String)
        ensures
            words@ == self.words(),
    {
        match self {
            CommandError::List(error) => error.message(),
            CommandError::DomainLost => "Tmux domain lost".to_owned(),
            CommandError::Unescape(_) => "unescape pane content".to_owned(),
        }
    }
}

// ---------------------------------------------------------------------------
// Listing
// ---------------------------------------------------------------------------

/// Asks for all panes.
#[derive(Debug, Clone, Copy, PartialEq, Eq, Structural)]
pub struct ListAllPanes;

impl TmuxCommand for ListAllPanes {
    open spec fn words(&self) -> Seq<char> {
        "list-panes -aF '#{session_id} #{window_id} #{pane_id} #{pane_index} #{cursor_x} #{cursor_y} #{pane_width} #{pane_height} #{pane_left} #{pane_top} #{pane_active}'\n"@
    }

    fn get_command(&self) -> (line: String) {
        "list-panes -aF '#{session_id} #{window_id} #{pane_id} #{pane_index} #{cursor_x} #{cursor_y} #{pane_width} #{pane_height} #{pane_left} #{pane_top} #{pane_active}'\n".to_owned()
    }
}

impl ListAllPanes {
    /// What makes the reply unreadable, if anything does.
    pub fn fault(&self, result: &Guarded) -> (fault: Option<ListFault>)
        ensures
            fault == (match pane_list(result.output@) {
                Err(ListTrouble::Fault(fault)) => Some(fault),
                _ => None,
            }),
    {
        match read_pane_list(result.output.as_str()) {
            Err(ListTrouble::Fault(fault)) => Some(fault),
            _ => None,
        }
    }

    /// Reads the reply, and brings its panes up to date in the tmux domain, if that is still there.
    pub fn process_result(&self, domain: Option<&mut TmuxDomainState>, result: &Guarded) -> (syncs:
        Result<Vec<PaneSync>, CommandError>)
        requires
            !(pane_list(result.output@) matches Err(ListTrouble::Fault(_))),
            domain matches Some(d) ==> d@.wf(),
        ensures
            match (pane_list(result.output@), domain) {
                (Ok(panes), Some(d)) => syncs is Ok && syncs->Ok_0@ == d@.pane_syncs(panes)
                    && final(d)@ == d@.with_captures(panes) && final(d)@.wf(),
                (Ok(_), None) => syncs is Err && syncs->Err_0 == CommandError::DomainLost,
                (Err(ListTrouble::Rejected(error)), Some(d)) => syncs is Err && syncs->Err_0
                    == CommandError::List(error) && final(d)@ == d@,
                (Err(ListTrouble::Rejected(error)), None) => syncs is Err && syncs->Err_0
                    == CommandError::List(error),
                (Err(ListTrouble::Fault(_)), _) => false,
            },
    {
        match read_pane_list(result.output.as_str()) {
            Ok(panes) => match domain {
                Some(domain) => Ok(domain.sync_pane_state(panes.as_slice())),
                None => Err(CommandError::DomainLost),
            },
            Err(ListTrouble::Rejected(error)) => Err(CommandError::List(error)),
            Err(ListTrouble::Fault(_)) => vstd::pervasive::unreached(),
        }
    }

    /// Reads the reply, whatever it is, and brings its panes up to date where it is readable.
    pub fn try_process_result(&self, domain: Option<&mut TmuxDomainState>, result: &Guarded) -> (
    syncs: Result<Result<Vec<PaneSync>, CommandError>, ListFault>)
        requires
            domain matches Some(d) ==> d@.wf(),
        ensures
            match (pane_list(result.output@), domain) {
                (Ok(panes), Some(d)) => syncs is Ok && syncs->Ok_0 is Ok && syncs->Ok_0->Ok_0@
                    == d@.pane_syncs(panes) && final(d)@ == d@.with_captures(panes),
                (Ok(_), None) => syncs is Ok && syncs->Ok_0 is Err && syncs->Ok_0->Err_0
                    == CommandError::DomainLost,
                (Err(ListTrouble::Rejected(error)), _) => syncs is Ok && syncs->Ok_0 is Err
                    && syncs->Ok_0->Err_0 == CommandError::List(error),
                (Err(ListTrouble::Fault(fault)), _) => syncs is Err && syncs->Err_0 == fault,
            },
            domain matches Some(d) ==> final(d)@.wf() && (pane_list(result.output@) is Err
                ==> final(d)@ == d@),
    {
        match self.fault(result) {
            Some(fault) => Err(fault),
            None => Ok(self.process_result(domain, result)),
        }
    }
}

/// Asks for all windows.
#[derive(Debug, Clone, Copy, PartialEq, Eq, Structural)]
pub struct ListAllWindows;

impl TmuxCommand for ListAllWindows {
    open spec fn words(&self) -> Seq<char> {
        "list-windows -aF '#{session_id} #{window_id} #{window_width} #{window_height} #{window_active} #{window_layout}'\n"@
    }

    fn get_command(&self) -> (line: String) {
        "list-windows -aF '#{session_id} #{window_id} #{window_width} #{window_height} #{window_active} #{window_layout}'\n".to_owned()
    }
}

impl ListAllWindows {
    /// What makes the reply unreadable, if anything does.
    pub fn fault(&self, result: &Guarded) -> (fault: Option<ListFault>)
        ensures
            fault == (match window_list(result.output@) {
                Err(ListTrouble::Fault(fault)) => Some(fault),
                _ => None,
            }),
    {
        match read_window_list(result.output.as_str()) {
            Err(ListTrouble::Fault(fault)) => Some(fault),
            _ => None,
        }
    }

    /// Reads the reply, and begins to show its windows as the tmux domain wants it, if that is still
    /// there.
    pub fn process_result(&self, domain: Option<&TmuxDomainState>, result: &Guarded) -> (begun:
        Result<(WindowSync, SyncAction), CommandError>)
        requires
            !(window_list(result.output@) matches Err(ListTrouble::Fault(_))),
        ensures
            match (window_list(result.output@), domain) {
                (Ok(windows), Some(d)) => begun is Ok && begun->Ok_0.0@ == start(
                    windows,
                    d@.current_session(),
                ) && begun->Ok_0.1 == SyncAction::OpenWindow && begun->Ok_0.0@.wf()
                    && begun->Ok_0.0@.known(d@),
                (Ok(_), None) => begun is Err && begun->Err_0 == CommandError::DomainLost,
                (Err(ListTrouble::Rejected(error)), _) => begun is Err && begun->Err_0
                    == CommandError::List(error),
                (Err(ListTrouble::Fault(_)), _) => false,
            },
    {
        match read_window_list(result.output.as_str()) {
            Ok(windows) => match domain {
                Some(domain) => Ok(domain.sync_window_state(windows)),
                None => Err(CommandError::DomainLost),
            },
            Err(ListTrouble::Rejected(error)) => Err(CommandError::List(error)),
            Err(ListTrouble::Fault(_)) => vstd::pervasive::unreached(),
        }
    }

    /// Reads the reply, whatever it is, and begins to show its windows where it is readable.
    pub fn try_process_result(&self, domain: Option<&TmuxDomainState>, result: &Guarded) -> (begun:
        Result<Result<(WindowSync, SyncAction), CommandError>, ListFault>)
        ensures
            match (window_list(result.output@), domain) {
                (Ok(windows), Some(d)) => begun is Ok && begun->Ok_0 is Ok
                    && begun->Ok_0->Ok_0.0@ == start(windows, d@.current_session())
                    && begun->Ok_0->Ok_0.1 == SyncAction::OpenWindow && begun->Ok_0->Ok_0.0@.wf()
                    && begun->Ok_0->Ok_0.0@.known(d@),
                (Ok(_), None) => begun is Ok && begun->Ok_0 is Err && begun->Ok_0->Err_0
                    == CommandError::DomainLost,
                (Err(ListTrouble::Rejected(error)), _) => begun is Ok && begun->Ok_0 is Err
                    && begun->Ok_0->Err_0 == CommandError::List(error),
                (Err(ListTrouble::Fault(fault)), _) => begun is Err && begun->Err_0 == fault,
            },
    {
        match self.fault(result) {
            Some(fault) => Err(fault),
            None => Ok(self.process_result(domain, result)),
        }
    }
}

// ---------------------------------------------------------------------------
// Panes
// ---------------------------------------------------------------------------

/// Gives a pane another size.
#[derive(Debug, Clone, Copy, PartialEq, Eq, Structural)]
pub struct Resize {
    pub pane_id: TmuxPaneId,
    pub size: PtySize,
}

impl TmuxCommand for Resize {
    open spec fn words(&self) -> Seq<char> {
        "resize-pane -x "@ + decimal(self.size.cols as nat) + " -y "@ + decimal(
            self.size.rows as nat,
        ) + " -t %"@ + decimal(self.pane_id as nat) + "\n"@
    }

    fn get_command(&self) -> (line: String) {
        let mut line = "resize-pane -x ".to_owned();
        push_decimal(&mut line, self.size.cols as u64);
        line.append(" -y ");
        push_decimal(&mut line, self.size.rows as u64);
        line.append(" -t %");
        push_decimal(&mut line, self.pane_id);
        line.append("\n");
        line
    }
}

impl Resize {
    /// A reply to this command changes nothing, and one that reports an error is not turned down.
    pub fn process_result(&self, _result: &Guarded) -> (done: Result<(), CommandError>)
        ensures
            done == Ok::<(), CommandError>(()),
    {
        Ok(())
    }
}

/// Asks for what a pane shows.
#[derive(Debug, Clone, Copy, PartialEq, Eq, Structural)]
pub struct CapturePane(pub TmuxPaneId);

impl TmuxCommand for CapturePane {
    open spec fn words(&self) -> Seq<char> {
        "capture-pane -p -t %"@ + decimal(self.0 as nat) + " -e -C\n"@
    }

    fn get_command(&self) -> (line: String) {
        let mut line = "capture-pane -p -t %".to_owned();
        push_decimal(&mut line, self.0);
        line.append(" -e -C\n");
        line
    }
}

impl CapturePane {
    /// What the pane is to show after the reply, where its text is to be shown at all: the text
    /// without the line ends behind it, unescaped, with a carriage return before each line feed.
    /// The text is for the pane that was asked for, as long as that is there.
    pub fn process_result(&self, domain: Option<&TmuxDomainState>, result: &Guarded) -> (shown:
        Result<Option<String>, CommandError>)
        ensures
            match domain {
                None => shown is Err && shown->Err_0 == CommandError::DomainLost,
                Some(d) => match unescaped(trimmed(result.output@)) {
                    Err(why) => shown is Err && (shown->Err_0 matches CommandError::Unescape(cause)
                        && cause@ == why),
                    Ok(text) => if d@.remotes.contains_key(self.0) {
                        shown is Ok && shown->Ok_0 is Some && shown->Ok_0->0@ == with_returns(text)
                    } else {
                        shown is Ok && shown->Ok_0 is None
                    },
                },
            },
            domain is Some && domain->0@.remotes.contains_key(self.0) && !trimmed(
                result.output@,
            ).contains('\\') ==> shown is Ok && shown->Ok_0 is Some && shown->Ok_0->0@
                == with_returns(trimmed(result.output@)),
    {
        let domain = match domain {
            Some(domain) => domain,
            None => return Err(CommandError::DomainLost),
        };
        let text = match unescape(trim_line_ends(result.output.as_str()).as_str()) {
            Ok(text) => text,
            Err(cause) => return Err(CommandError::Unescape(cause)),
        };
        let shown = terminal_text(text.as_str());
        if domain.has_remote_pane(self.0) {
            Ok(Some(shown))
        } else {
            Ok(None)
        }
    }
}

/// Sends key presses to a pane.
#[derive(Debug, PartialEq, Eq)]
pub struct SendKeys {
    pub keys: Vec<u8>,
    pub pane: TmuxPaneId,
}

/// Keys in words: each as a hexadecimal number, with a space behind it.
pub open spec fn keys_words(keys: Seq<u8>) -> Seq<char>
    decreases keys.len(),
{
    if keys.len() == 0 {
        seq![]
    } else {
        keys_words(keys.drop_last()) + "0x"@ + hex(keys.last()) + " "@
    }
}

impl TmuxCommand for SendKeys {
    open spec fn words(&self) -> Seq<char> {
        "send-keys -t %"@ + decimal(self.pane as nat) + " "@ + keys_words(self.keys@) + "\r"@
    }

    fn get_command(&self) -> (line: String) {
        let mut line = "send-keys -t %".to_owned();
        push_decimal(&mut line, self.pane);
        line.append(" ");
        let ghost start = line@;
        let mut i: usize = 0;
        while i < self.keys.len()
            invariant
                i <= self.keys@.len(),
                line@ == start + keys_words(self.keys@.take(i as int)),
            decreases self.keys.len() - i,
        {
            line.append("0x");
            push_hex(&mut line, self.keys[i]);
            line.append(" ");
            i = i + 1;
            assert(self.keys@.take(i as int).drop_last() == self.keys@.take(i - 1));
        }
        assert(self.keys@.take(self.keys@.len() as int) == self.keys@);
        line.append("\r");
        line
    }
}

impl SendKeys {
    /// A reply to this command changes nothing.
    pub fn process_result(&self, _result: &Guarded) -> (done: Result<(), CommandError>)
        ensures
            done == Ok::<(), CommandError>(()),
    {
        Ok(())
    }
}

/// A command that waits to be sent.
#[derive(Debug, PartialEq, Eq)]
pub enum Command {
    ListAllPanes(ListAllPanes),
    ListAllWindows(ListAllWindows),
    Resize(Resize),
    CapturePane(CapturePane),
    SendKeys(SendKeys),
}

impl TmuxCommand for Command {
    open spec fn words(&self) -> Seq<char> {
        match self {
            Command::ListAllPanes(command) => command.words(),
            Command::ListAllWindows(command) => command.words(),
            Command::Resize(command) => command.words(),
            Command::CapturePane(command) => command.words(),
            Command::SendKeys(command) => command.words(),
        }
    }

    fn get_command(&self) -> (line: String) {
        match self {
            Command::ListAllPanes(command) => command.get_command(),
            Command::ListAllWindows(command) => command.get_command(),
            Command::Resize(command) => command.get_command(),
            Command::CapturePane(command) => command.get_command(),
            Command::SendKeys(command) => command.get_command(),
        }
    }
}

} // verus!
