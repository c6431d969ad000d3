# nix_output_monitor

A monitor for nix builds: it reads nix's log (its internal JSON or its
human-readable output), keeps track of builds, downloads and uploads, and
draws a live dependency tree with a summary table.

## Layout

- `src/` is the library, verified with Verus. Every function there carries a
  `requires`/`ensures` contract over a mathematical model (sequences of
  characters, sets, maps), and the library's laws are stated as public proof
  functions.
  - `text.rs`: specifications of the string operations used everywhere, with
    verified implementations over vectors of characters.
  - `types.rs`: store paths, derivations, output names and hosts, their
    parsers and printers.
  - `parser/`: nix's human-readable messages (`old_style.rs`), the JSON log
    (`json.rs`) and `.drv` files (`derivation.rs`).
  - `events.rs`: what a log message means for the build state.
  - `graph.rs`: the dependency graph — which derivations take a derivation
    as input, which derivation produces a store path, and the roots of the
    shown forest.
  - `idmap.rs`: maps and sets keyed by the index of a derivation or store
    path, in increasing order of their keys.
  - `build_state.rs`: builds and transfers with their times (milliseconds
    since the monitor started), what an event makes of a status or of a
    store path's states, and the dependency summaries that collect them.
  - `tracking.rs`: the state of the whole build and the events that move it
    on, with the summaries above each change kept up to date.
  - `state.rs`: the order of output names and of planned derivations and
    store paths, and what the monitor keeps of an activity.
  - `ancestors.rs`: which dependency summaries a change reaches.
  - `reports.rs`: the build-reports file — its lines, the whole file written
    and read back, the history of build durations by host and derivation —
    and the expected duration of a build.
  - `activities.rs`: nix's running activities with their phase and
    progress, which log lines are shown, and the file evaluation reached.
  - `render.rs` and `render/`: the display — durations, hosts, the error and
    trace sections, the summary table, the choice and shape of the dependency
    tree, the order of derivations in it, and the fitting of the whole to the
    terminal window.
  - `terminal.rs`: redrawing the screen without flicker.
  - `cli.rs`: what a command line asks for, and the arguments handed to nix.
- `app/` is the program around the library: the command line, reading the
  input stream and the `.drv` files, the clock, the messages kept for
  display, the terminal, files and threads.
- `tests/` runs the library on concrete inputs.
