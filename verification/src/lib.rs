//! Lowering of SSA functions to a structured stack machine.
//!
//! An SSA function is a flat list of basic blocks with jumps between them; the
//! stack machine knows only blocks nested in conditionals and loops, and an
//! operand stack. The pass walks the control flow graph from the entry block.
//! For each block it builds the graph of the dependencies between the
//! instructions, groups the instructions into trees, puts the trees in a
//! schedule, and lowers them while it keeps a model of the operand stack, so
//! that it knows which stack operations bring each value to where it is needed.
//!
//! * [`hir`] and [`analysis`] hold what the pass reads: the function, the
//!   program, and the loop and liveness analyses; [`globals`] finds the
//!   addresses of global values.
//! * [`masm`] holds what it writes: operations, blocks and functions of the
//!   stack machine.
//! * [`operand_stack`] is the model of the operand stack, and [`primitives`],
//!   [`clearing`], [`window`], [`arguments`], [`oracle`] and [`lowering`] are
//!   the steps that write operations and keep the model up to date.
//! * [`depgraph`], [`dependencies`] and [`treegraph`] are the graphs and the
//!   schedule of a block; [`cache`] keeps them for loop headers.
//! * [`walk`] says what the pass computes, [`emitter`] computes it, [`pass`]
//!   is the entry point, and [`error`] lists what can go wrong.
//! * [`collections`] holds what is taken on trust from other crates.

pub mod analysis;
pub mod arguments;
pub mod cache;
pub mod clearing;
pub mod collections;
pub mod dependencies;
pub mod depgraph;
pub mod emitter;
pub mod error;
pub mod globals;
pub mod hir;
pub mod lowering;
pub mod masm;
pub mod operand_stack;
pub mod oracle;
pub mod pass;
pub mod primitives;
pub mod treegraph;
pub mod walk;
pub mod window;
