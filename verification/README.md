# metal_backend

The verified core of a Metal GPU backend for a circle STARK prover.

The library in `src/` holds everything that can be decided on plain values. Work for the
device is a value, a `kernel::Plan`: the buffers that it needs and the kernel launches on
them. Contracts fix every plan to the last argument. Laws say what performing the plan
computes: for transforms, accumulation, evaluation at points, folding, decomposition,
quotients, Merkle leaves and layers, and constraint evaluation.

| Part | Modules |
| --- | --- |
| Constraint bytecode and the machine that runs it | `bytecode`, `bytecode_generator`, `vm` |
| Constraint evaluation | `constraint_eval_gpu`, `component_prover` |
| Transforms | `poly`, `fft_schedule`, `butterflies`, `planned_transform`, `transform_memory`, `twiddle_manager` |
| Evaluation at points, folding, quotients, accumulation | `point_evaluation`, `fri`, `quotients`, `quotient_memory`, `accumulation` |
| Hash columns, channel, proof of work | `merkle`, `blake2s_hash`, `channel`, `grind` |
| Plans, buffers and columns | `kernel`, `device_memory`, `buffer_pool`, `packing`, `columns` |
| Field arithmetic and helpers | `fields`, `utils`, `byte_order`, `thresholds` |
| Backend and timing | `backend`, `profiling` |

An operation that is too small for the device gives no plan; the processor does it.

`app/` performs plans with the `metal` crate on macOS, reads the clock and the environment,
and implements the traits of other crates. `tests/` runs the library, with kernels that are
written out there.
