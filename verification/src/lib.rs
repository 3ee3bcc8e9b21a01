//! Roofline: a cost-based optimizing compiler for tensor programs, built like a query engine.
//!
//! - [`ir`], [`tensor`]: programs, their shapes, and the reference interpreter.
//! - [`account`]: the flops, the memory traffic and the working set of a program.
//! - [`cost`], [`analysis`]: the cost of a plan is the time of its slowest resource.
//! - [`rules`], [`saturate`], [`egraph`]: equivalent programs, found by rewriting.
//! - [`extract`]: the plan that the cost model prefers.
//! - [`codegen`]: the kernels that a plan is lowered to.
//! - [`ledger`], [`cli`], [`bench`]: claims that are committed before they are measured.
//!
//! What holds across functions stands in the modules whose names end in `laws`, in [`meaning`],
//! and beside the functions in the other modules. The matrix identities behind the laws of
//! rewriting are in [`algebra`].
pub mod account;
pub mod account_laws;
pub mod algebra;
pub mod analysis;
pub mod attention_laws;
pub mod bench;
pub mod capped;
pub mod cli;
pub mod cli_laws;
pub mod codegen;
pub mod cost;
pub mod cost_laws;
pub mod egraph;
pub mod extract;
pub mod extract_laws;
pub mod ir;
pub mod kernel_laws;
pub mod laws;
pub mod ledger;
pub mod ledger_laws;
pub mod meaning;
pub mod names;
pub mod natural;
pub mod number;
pub mod plan_laws;
pub mod program_laws;
pub mod rules;
pub mod saturate;
pub mod search_laws;
pub mod seconds;
pub mod shape_laws;
pub mod tensor;
pub mod tensor_laws;
pub mod text;
