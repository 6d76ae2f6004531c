# soma

Executives for resumable continuations, with contracts proved by Verus.

- `src/compiler`: bodies in straight-line form, their validity and meaning, the
  frames that continuations keep, and the run classes.
- `src/executives`: how work is carried out. Batches of elements (`batch`,
  `placement`), native code (`native`, `native_emit`), the scalar executive
  (`cpu_scalar`, `lane`, `step`), the ants' steps (`ant_colony`), the resident
  executive (`resident_*`), and what is handed to and read back from a Metal
  device (`metal*`).
- `src/experiments`: workloads, policies and studies over the executives.
- `src/kernel.rs`: what the library asks of a kernel. Each call is logged, so
  that a contract can say which calls were made, and in which order.
- `app`: machine code, threads, clocks, devices, streams and figures in floating
  point, which stand around the library.
- `tests`: the library run from outside, over an in-memory kernel and a device
  in software.

A contract speaks of views: sequences of bytes, maps and mathematical integers.
Proof functions named `law_*` state what holds across several functions.
