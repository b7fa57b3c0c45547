# blis_gemm

A BLIS-style matrix multiplication `C += A * B` built as a tree of nodes,
with every node proved to do exactly what the plain triple loop does.

- `src/matrix.rs`: the `Scalar` element trait (implemented for `u64` and
  `i64`, wrapping), the `Mat` trait of matrices seen through a view window,
  and the dense row-major `Matrix`.
- `src/layout.rs`: index arithmetic of row-major buffers and of panels.
- `src/panel.rs`: `ColumnPanelMatrix` and `RowPanelMatrix`, matrices stored
  as panels of consecutive columns or rows.
- `src/pack.rs`: `Packer`, which copies a view into another matrix.
- `src/gemm.rs`: the `GemmNode` trait and its nodes `PartM`, `PartN`,
  `PartK`, `PackAcp`, `PackBcp`, `PackArp`, `PackBrp` and
  `TripleLoopKernel`, with the laws that tie them together.
- `src/thread.rs`: a thread's place in a team, the decisions of the
  broadcast and split protocols of a thread communicator, and a model of a
  team running one broadcast under any interleaving, with its invariant,
  freedom from deadlock and completion under fair schedules.
- `app/`: the threaded runtime (atomics, barrier, raw buffers) that runs
  those protocols, and a two-thread demo.
