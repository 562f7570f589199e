# xmux

A terminal multiplexer in the style of tmux, with a sidebar that lists the
windows. Keys go through a prefix (`Ctrl-b` by default): `%` and `"` split
the active pane, the arrows move the focus, `Ctrl`-arrows move the nearest
border by one line, `x` closes a pane, `c` opens a window, `1`-`9` switch windows, `z`
hides the sidebar, `f` zooms the active pane and `q` quits. Programs in the
panes can send notifications with `xmux notify --title .. --body ..`.

## Layout

- `src/` is the library, verified with Verus:
  - `layout.rs`: the binary layout tree, the areas and borders it gives, and
    splitting, removing and resizing panes;
  - `window.rs`: windows of panes, and what their operations ask of the
    pseudo-terminals (as `Effect`s);
  - `app.rs`: the application state machine, from events to the next state
    and the effects to perform;
  - `input.rs`, `config.rs`: the prefix key, the bindings and the parsing of
    key descriptions;
  - `sidebar.rs`, `render.rs`, `screen.rs`: what the sidebar, the borders,
    the panes' cells, the cursor and the toast look like on the screen, and
    the text of a mouse selection;
  - `notification.rs`, `process.rs`: the `notify` command line, its
    message, the socket path, and the foreground program of a pane;
  - `text.rs`: string helpers specified over `Seq<char>`.
- `app/` is the terminal front end: raw mode and drawing with crossterm,
  pseudo-terminals with portable-pty, screens with vt100, the notification
  socket with tokio, and the configuration file.
- `tests/` runs the library on concrete values.
