# wm

The container tree of a tiling window manager, and the logic of a status
bar and a command line client that talk to it, written in Verus with their
contracts proved.

## Layout

- `src/tree.rs` — the container tree: an arena of containers with parent
  links, children in display order and a focus order per parent, its
  well-formedness (`tree_wf`), getters and builders.
- `src/tree/commands.rs` — the commands that reshape the tree: flattening a
  split or stack container, detaching a container, wrapping tiling
  containers in a new stack, toggling a window's stack, and moving focus.
  The size work each command leaves to the layout is logged as a
  `SizeEffect`.
- `src/tree/laws.rs` — properties over several commands: toggling a stack
  twice restores the tree; focusing brings every container on the way to
  the front of its parent's focus order.
- `src/state.rs` — the manager's state as the commands see it, `say` and
  `toggle_stack`.
- `src/ids.rs` — container ids (random version-4 UUIDs) and their text.
- `src/dto.rs`, `src/ipc.rs` — the messages between the manager and its
  clients, and what a client reads out of them.
- `src/watcher.rs` — what the status bar keeps of the manager's state and
  how it answers events.
- `src/minibar.rs`, `src/platform.rs` — the bar's layout settings, click
  commands, window-message dispatch, tray icon, placement and monitors.
- `src/cli.rs` — the command line client's message and output rules.
- `app/` — the programs around the library: the Win32 window, Direct2D
  drawing, the IPC connection and its JSON form.
- `tests/` — tests of the library on concrete values.
