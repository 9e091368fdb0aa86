# tmux_commands

The commands that a terminal multiplexer sends to tmux in control mode, and what is made of the
replies. `src/` is a verified library; `app/` puts it to work.

- `text`: characters, separators and numbers.
- `items`: what tmux reports: panes, windows and the way a window is divided.
- `layout`: reading the layout string of a window; `layout_tree` says what such a string means, and
  that reading it gives that back; `layout_steps` says in which order the layout steps come, and how
  many there are.
- `listing`: reading the replies to the two listing commands; `listing_laws` says that what tmux
  writes about panes and windows reads back.
- `capture`: the text of a pane, made ready for a terminal.
- `commands`: the wording of the commands, and what is made of each reply; `command_laws` says that
  a command is one line, and that the keys in it read back.
- `domain`: what is known of the session, which panes are shown, and which commands wait.
- `window_sync`: showing the listed windows, one action of the multiplexer after the other;
  `window_sync_laws` says what holds of every such run, however its actions turn out, and
  `window_run_laws` and `pane_run_laws` what a whole run does to the multiplexer, with its tabs and
  with the panes in them.

Some replies cannot be read: a number that does not fit, or a layout that is cut off in the wrong
place. They are called faults. A function that cannot deal with them says so in its `requires`, and
has a companion that tells whether there is one.

The multiplexer itself, its tabs and its terminals, is reached through the trait `Multiplexer` of
`app/`.
