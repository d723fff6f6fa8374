# workspaces

The workspace logic of a scrolling window manager, verified with Verus.

- `src/`: the library. It decides, on tables of plain values, what becomes of
  strips and windows when workspaces come, go and change places, when windows
  move between rows, and when displays are unplugged. Every function has a
  contract; the laws that span several functions stand beside them as proof
  functions. What is taken on trust is the arithmetic of `bevy::math`, in
  `src/geometry.rs`.
- `tests/`: the library on concrete values.
- `app/`: the systems of a `bevy` world around it. They read the world into
  tables, talk to the window server, and carry out what the library decides.
