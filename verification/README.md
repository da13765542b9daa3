# moredata

The graph model, compiler and realtime transport rules of a native audio
engine, written in Verus.

- `src/` is the verified library: graph building and validation (`graph`,
  `topo`), project files (`project`), compilation into a processing order with
  parameter slots and gate dispatch (`compile`), the event queue and the
  per-block event window (`event`), engine handoff mailboxes (`link`), the
  engine's bookkeeping (`runtime`), level partitions for parallel execution
  (`scheduler`), and the backend, plugin and status records (`audio`,
  `pipewire`, `plugin`, `report`).
- `app/` is the command-line program around it: argument parsing, JSON, sample
  processing (floating point), audio devices through cpal, WAV files through
  hound, and a terminal view.
- `tests/` exercises the library from outside.

Parameter values are carried as the bit patterns of `f32` values; the library
compares them as such and never computes with floats.
