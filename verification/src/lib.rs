//! Tmux control-mode commands: their wording, the reading of their replies, and the
//! bookkeeping that follows from a reply.

pub mod capture;
pub mod command_laws;
pub mod commands;
pub mod domain;
pub mod domain_laws;
pub mod field_laws;
pub mod items;
pub mod layout;
pub mod layout_laws;
pub mod layout_steps;
pub mod layout_tree;
pub mod listing;
pub mod listing_laws;
pub mod pane_order;
pub mod pane_run_laws;
pub mod place_run_laws;
pub mod reply_laws;
pub mod tab_order_laws;
pub mod text;
pub mod window_run_laws;
pub mod window_sync;
pub mod window_sync_laws;

pub use commands::{
    CapturePane, Command, CommandError, Guarded, ListAllPanes, ListAllWindows, PtySize, Resize,
    SendKeys, TmuxCommand,
};
pub use domain::{PaneSync, TmuxDomainState};
pub use items::{PaneItem, TmuxLayout, TmuxPaneId, TmuxSessionId, TmuxWindowId, WindowItem};
pub use layout::{parse_layout, parse_pane};
pub use text::NumberError;
pub use window_sync::{SyncAction, SyncReply, WindowSync};
