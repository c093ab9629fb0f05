//! The middle end and the code generator of a compiler for a small
//! functional language: a three-address intermediate representation with its
//! control-flow graph, construction of static single-assignment form,
//! liveness and scalar optimizations under a pass manager, and a RISC-V
//! backend with instruction selection, linear-scan register allocation and
//! emission of assembly text.  The tokenizer of the source language comes
//! with it.
//!
//! Every function is verified against its contract.  Contracts speak of
//! data through views: a name is its sequence of characters, a function its
//! sequence of blocks.

pub mod constant_folding;
pub mod constant_propagate;
pub mod deadcode_removal;
pub mod decimal;
pub mod def_sites;
pub mod dominators;
pub mod frontier;
pub mod function;
pub mod instruction_sel;
pub mod intervals;
pub mod ir;
pub mod lexer;
pub mod liveness;
pub mod machine_ir;
pub mod names;
pub mod pass_manager;
pub mod phi;
pub mod reaching;
pub mod register_alloc;
pub mod rename;
pub mod riscv_emission;
pub mod scalar_passes;
pub mod scopes;
pub mod single_assignment;
pub mod ssa;
pub mod tables;
pub mod visible;
pub mod walk;
pub mod wiring;
