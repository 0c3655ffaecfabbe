# exedra_exact

The exact, integer kernels of the Exedra geometry workspace, written in
Verus and proved against their contracts:

- `measurements`: strictly positive lengths, signed offsets, angles and
  angular offsets stored as exact integer counts (joto iotas and
  microarcseconds), with checked arithmetic.
- `keyed`: the version 1 keyed hash (SplitMix64 mixing, left folds, FNV-1a
  tags) and a SplitMix64 stream.
- `vector`: 3-vector and quaternion helpers generic over the scalar's `+`,
  `-` and `*`. For scalars whose operators follow vstd's specifications (the
  primitive integers) the contracts fix the evaluation order and result;
  vstd specifies no floating-point operator, so for `f32` and `f64` the
  contracts admit no call and prove nothing.
- `topology`: classification of a cube cell's crossing edges into
  face-connected surface components.
- `cyclic`: collapsing a face's four vertex tokens into a distinct cycle.
- `grid`, `locator`, `segments`, `balance`, `completion`: the integer grid
  of an adaptive octree, leaf lookup, minimal edge segments, two-to-one
  face balancing, component tokens and the transition-completion decision.
- `refinement`: the per-cell refinement decisions and their precedence.
- `control`: extraction limits and per-run accounting.
- `fields`: combinator and parameter records of the scalar fields.
- `sorted`: strictly sorted key lists used as ordered sets.

`app/` holds the floating-point boundary around the library: corner-sample
signs and saddle decisions, unit lowering, real-valued vector helpers and
hash draws. `tests/` exercises both the library's scenarios and its laws on
concrete values.
