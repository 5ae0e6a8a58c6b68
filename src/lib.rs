//! A decision procedure for quantified Boolean formulas over a hash-consed,
//! self-simplifying expression graph.
//!
//! - `vars`: sets of variable indices, one per node.
//! - `expression`: the graph, its builder and the meaning of its nodes.
//! - `substitute`: setting one variable to a constant throughout a graph.
//! - `solver`: quantifiers, formulas, and the quantifier-block decision procedure.
//! - `cnf`: the Tseytin encoding and the satisfiability oracle.
//! - `expansion`: the whole-formula expansion strategy.
//! - `text`, `parser`, `introduce`: reading a problem file and building its formula.
//! - `laws`: laws that relate calls of these functions to one another.

pub mod vars;
pub mod expression;
pub mod substitute;
pub mod solver;
pub mod cnf;
pub mod expansion;
pub mod text;
pub mod parser;
pub mod introduce;
pub mod laws;
