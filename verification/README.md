# i3-cycles

Cycle through i3 workspaces in named groups ("cycles"). A daemon keeps the
cycles; small commands ask it to jump to the next workspace of the active
cycle, to add or remove a workspace, to list or select cycles, or to dump its
state.

- `src/` is the verified library (Verus): the order on names
  (`text_order`), ascending name lists (`name_list`), the cycles state
  (`state`), requests and answers (`protocol`), what the daemon answers and
  where its socket lives (`daemon`), and log lines (`logging`).
- `app/` is the program around it: the socket, JSON on the wire, the state
  dump, process-wide logging settings and the command line.
- `tests/` runs the library on concrete inputs.
