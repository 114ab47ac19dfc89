# route_rs

Core of a Muskingum-Cunge river-network router, with its decisions proved in
Verus.

- `src/scheduler.rs`: dependency-ordered scheduling of reaches over workers;
  `src/schedule_laws.rs` proves that along any run a reach is handed out at
  most once and only after all its feeders finished, that the run ends
  exactly when every reach finished, and that an acyclic network never stalls.
- `src/batch.rs`: batching of results before writing; nothing is lost,
  repeated or reordered.
- `src/channel.rs`: channel parameters in fixed point, averaging,
  interpolation and subdivision of a reach into sections.
- `src/node_run.rs`: how one reach is driven over all timesteps (upsampling of
  lateral inflow, zero filling, errors).
- `src/convergence.rs`: the retry budget of the kernel's secant solver.
- `src/layout.rs`: the run directory and the choice of its GeoPackage.
- `src/weights.rs`: rewriting the field list of a struct literal.
- `app/`: command line, the floating-point kernel, threads and channels.
