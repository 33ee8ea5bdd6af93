//! A small language for plonk circuits: equations over named variables are
//! validated, their variables classified as witnesses or public inputs, and
//! each equation lowered onto one fixed-shape arithmetic gate
//! `q_m·a·b + q_l·a + q_r·b + q_o·o + q_c = 0`.
mod circuit;
mod error;
mod expr;
mod gate;
mod grammar;
mod rules;
mod vars;

pub use circuit::PlangCircuit;
pub use error::Error;
pub use expr::{BiTerm, ExprModel, PlangExpr, Public, TriTerm};
pub use gate::Gate;
pub use grammar::{PlangGrammar, PlangNode};
pub use vars::WitnessOrPublic;
