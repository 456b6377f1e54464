# vitui_engine

The cell-level core of a terminal rendering engine, with its behaviour stated in contracts and
proved: colours and style words, the one compositing operator (`Mix`), colour quantisation to what
a terminal can express, the restyle descriptor, the render packet, the wire serializer with its
mirror, equality filter, gap merge, shortest cursor encoding and verified scroll region, the
app-thread frame-budget detector, the terminal quirk table and the restoration decision.

- `src/` is the verified library. `style`, `tables`, `caps` and `quirks` hold the data;
  `quant`, `mix`, `restyle` and `packet` the cell-level logic; `wire`, `rows`, `segment` and
  `serial` the serializer; `perf`, `shutdown` and `reader` the decisions of the threads around it.
- `app/` is the process around it: the clock, the sinks, the observer thread, the input thread's
  loop, the panic hook, and the two computations done in floating point (a frame interval from a
  rate, and a duration printed for a human).
- `tests/` exercise the library from outside.
