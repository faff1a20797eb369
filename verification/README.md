# qframe

Decisions of a terminal application runtime, written in Verus with their contracts and
proved: frame pacing, output lines, pictures, the clipboard, handoffs, questions, idleness, and
where the mouse and the keys go. The widget tree the runtime draws and routes through is not
part of it: its facts come in as plain values, and its answers come back as events.

`src/` is the verified library:

- `frame_limit`, `pacing`: how many frames a second are drawn, and when a frame is due or held.
- `lines`: cutting a child's output into lines, with `\r` overwriting the line being built.
- `child`: the program a test plays in place of one left running after a detached handoff.
- `launch`: the programs an application starts, and the order of a handoff.
- `detached`: a handoff that ends at the program's first line and leaves it running.
- `clipboard`, `base64`: reading the clipboard from the system's tools, then the terminal.
- `late_answer`: picking a late kitty graphics answer out of the keys.
- `confirm`: "are you sure?" questions, the word that unlocks them, and which part of the
  dialog an input reaches.
- `pointer_shapes`, `present`: what a frame writes to the terminal, and nothing when nothing
  changed.
- `kitty`, `sixel`, `sixel_frames`, `decimal`: the bytes that show pictures, and which sixel
  pictures a frame writes again.
- `idle`: which silences the view watches have begun or ended.
- `geometry`, `selection`: a selection on screen, once started: dragging, following its text,
  copying it.
- `focus`: where the keyboard's focus goes: to a named widget, round the order, on a widget's
  request, and back to what a scope remembers.
- `input`: where a press, a drag, the wheel and a key go; which region a press nobody used
  selects in; which layers a press closes; when the selection is copied or cleared.
- `html`: the page that lays screens out on a dark background.

`app/` holds what runs around it: child processes and pseudo-terminals, the clipboard tools,
the foreground of the terminal during a handoff, the screen, the loops that hand the routing's
actions to widgets and report back, and the conversions from the terminal's events, buffers and
environment into the library's values.
