# ripples

A keyboard debouncer for Linux: it reads a keyboard, filters chatter out of it, and writes the rest
to a virtual device. What it decides is a library that is verified with Verus; the daemon around it
only reads, writes and waits.

## Layout

- `src/debounce.rs` is the state machine, on `src/edges.rs` and `src/time.rs`. Its guarantees are
  stated in the module and proved in `src/guarantees.rs`, `src/latency.rs`, `src/cleanliness.rs`
  and `src/independence.rs`, over the stretches of input and waiting of `src/trace.rs` and
  `src/timing.rs`. What lasts when the keyboard is lost and comes back is in `src/replug.rs`.
- `src/sim.rs` drives it on given input.
- `src/pipeline.rs` feeds it the events of a keyboard, on `src/event.rs` and `src/codes.rs`; what
  is carried through is stated in `src/carried.rs`.
- `src/cli.rs` parses the options, on `src/args.rs` and `src/text.rs`.
- `src/device.rs` identifies, ranks and lists devices, with the tables of `src/table.rs`.
- `src/virtdev.rs` plans virtual devices.
- `src/startup.rs`, `src/session.rs`, `src/signal.rs` and `src/events.rs` are the decisions of the
  daemon.
- `app/` is the daemon, and `tests/` runs the library on concrete values.

## What is trusted

The functions marked `external_body`, the `assume_specification` items and the spec functions
without a body: they say what is relied on of `evdev`, `lexopt`, `rustix`, `tabular` and the
standard library. Each says so above it.
