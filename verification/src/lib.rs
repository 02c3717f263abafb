//! An optimising front end for Brainfuck: parsing into a small instruction
//! tree, tape sizing, peephole optimisation and compile-time execution,
//! each with its meaning stated and proved.

pub mod bfir;
pub mod bounds;
pub mod comments;
pub mod driver;
pub mod equivalence;
pub mod execution;
pub mod footprint;
pub mod parser;
pub mod peephole;
pub mod printer;
pub mod residual;
pub mod semantics;
pub mod text;

pub use crate::bfir::Instruction;
pub use crate::bounds::highest_cell_index;
pub use crate::execution::{execute, ExecutionState};
pub use crate::parser::parse;
pub use crate::peephole::optimize;
