# fast2d

A two-dimensional graph layout engine, verified with Verus down to the last bit of its
single-precision arithmetic.

Nodes are pulled and pushed towards the ideal distances of a distance matrix. In p-stress mode the
adjacent pairs always act, and the others only while they are closer than their ideal distance. The
positions are integrated by the classical Runge-Kutta scheme, the midpoint scheme or plain gradient
descent, with a step size that comes from the quadratic form of the Hessian. The Hessian has the
structure of a weighted Laplacian, so it is never built.

- `src/rounding.rs`, `src/binary32.rs`: the binary32 format, its operations, and proofs that they
  are correctly rounded.
- `src/sampling.rs`: the offsets that move coincident nodes apart, from the PCG32 generator.
- `src/model.rs`, `src/motion.rs`: what the engine computes, as mathematical functions.
- `src/topology.rs`, `src/weights.rs`, `src/sweep.rs`, `src/countdown.rs`, `src/engine.rs`,
  `src/context.rs`: the engine.
- `src/laws.rs`: what holds of layouts as a whole: active pairs, locks, runs and the Hessian.
- `src/balance.rs`, `src/symmetry.rs`, `src/doubling.rs`: balanced forces, mirrored and exchanged
  positions, doubled layouts; `src/scaled.rs` holds the arithmetic for the last.
- `src/settling.rs`, `src/spread.rs`: how displacing coincident nodes ends, and how far it goes.
- `src/api.rs`: the functions through which a host drives a layout.
- `app/`: the WebAssembly interface around the library.
