# arcadia

A small artificial-life universe. Actors live on credits: the commune bills
them each tick, the worlds feed them, and an actor that cannot pay dies. Each
actor carries a control made of units (a credit sensor, a birth signal, a birth
credit, a child maker, a spawner) built from a blueprint; the units set credits
aside for children and ask the body to give birth. The whole universe persists
to a compact little-endian binary file.

## Layout

- `src/` is the library, verified with Verus.
  - `storage`: reading and writing little-endian records over byte buffers;
    the spec-level parsers every record format is stated against.
  - `depot`: the slab that stores actors and worlds under stable indices.
  - `dispatcher`: a first-in, first-out message queue.
  - `blueprint`, `values`, `control`, `actors`: the records of an actor, their
    binary form, and the parts of the units' behaviour that need no floating
    point.
  - `places`: the commune, the worlds and the realm; billing and feeding.
  - `universe`: loading, saving and ticking a whole universe, with the laws
    that a saved universe reads back and that every operation keeps it
    consistent.
  - `telemetry`: the encoding of death and birth records.
- `tests/` exercises the library on concrete values.
- `app/` is the program: file and console I/O, threads, and the units' random,
  floating-point draws.
