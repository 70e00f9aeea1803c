# ftop

SysWatcher, a terminal system monitor for Linux: CPU, memory, swap, disk and
network figures, and a process list that can be sorted, searched, shown as a
tree, and acted on (suspend, resume, kill a process tree).

The crate is a library verified with Verus, and a thin program around it.

- `src/` — the verified library
  - `parsers` — the `/proc` formats (`stat`, `status`, `statm`, `meminfo`)
  - `process_controller` — process status, the parent/child map, signalling
    and killing a process tree, and the warnings shown before a suspend or a
    resume; all system access goes through `system_interface`
  - `system_interface` — the `SystemInterface` trait and `MockSystem`
  - `tree` — the process tree view, with laws: every process is shown once,
    parents come before their children, siblings keep the sort order
  - `ui` — what each key does to the dashboard, the handling of the process
    controller's answers, the selection window, and the dashboard's texts
  - `table`, `metrics` — table layout, figures and their text
  - `text` — character-level text handling shared by the above
- `app/` — the program: terminal I/O (`crossterm`, `ratatui`), sampling
  through `sysinfo` and `/proc`, the real `SystemInterface`, and what is
  computed in floating point
- `tests/` — tests of the library
