//! Matrix multiplication `C += A * B` organised as a tree of nodes: nodes
//! that partition the rows, the columns or the inner dimension into blocks,
//! nodes that pack A or B into panel layouts, and a triple-loop kernel at the
//! leaves. Every node is proved to compute, entry by entry, exactly what the
//! plain triple loop computes on the same views.

pub mod layout;
pub mod matrix;
pub mod panel;
pub mod pack;
pub mod thread;
pub mod gemm;
