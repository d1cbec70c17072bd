# mcfunction-debugger

A debugger for Minecraft's `*.mcfunction` files: it generates debug datapacks that suspend at
breakpoints, and a debug adapter that drives them. This crate holds its logic, verified with
Verus.

## Layout

- `src/parser/`: parsing of function lines against the command tree (`command/`), with the
  Brigadier and Minecraft argument parsers (`command/argument/`), resource locations and
  namespaced names.
- `src/generator/`: the configuration of a debug datapack, the partitions of a function at its
  breakpoints and calls, score holder names, generated command texts, the call tree, and the
  function files of a datapack in order of their names; `templates.rs` expands the datapack's
  templates, given as texts, into the path and text of each generated file.
- `src/template_engine.rs`: placeholder replacement in templates.
- `src/adapter/`: what the debug adapter reads back from the game (positions, stops, stack
  traces, command outputs), stepping and breakpoint decisions, and protocol message framing.
- `src/text.rs`, `src/entries.rs`, `src/sorted.rs`, `src/utils.rs`: byte-level text helpers,
  small maps held as vectors of pairs (in insertion or key order), sorted sets, and the commands
  whose output the game logs.
- `tests/`: tests of the library.
- `app/`: the program: the command line, reading the command tree from JSON and the templates
  from a data directory, finding function files on disk, writing the generated files, and
  reading framed messages from bytes.
