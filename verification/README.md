# garlic_crust

The verified core of the garlic_crust synthesizer and of `knober`, its generator
of synthesizer files.

- `src/garlic_crust.rs`: sequence events and messages, the cursor over a
  sequence, and `plan_block`, the order in which a render block interleaves the
  sequence events that fall due with its samples, with the laws of that order.
- `src/garlic_crust/oscillator.rs`: the wave shapes of an oscillator.
- `src/knober.rs`: reading a synthesizer definition (name, nodes, edges) out of
  the parse tree of a definition file, and the line that reports it.
- `app/`: the float signal code (edges, operators, the oscillator, envelope
  shapes) and the `knober` program (options, file I/O, parsing with pest).
