//! A mid-level control-flow-graph language: its types, its documents, its
//! lowering to machine code and the garbage-collected runtime behind it.

pub mod clif;
pub mod dag_program;
pub mod layout;
pub mod names;
pub mod rich_ast;
pub mod runtime;
pub mod slots;
pub mod text;
